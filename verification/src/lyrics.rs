//! The lyric lines the host sends on: the 11-line window around the current
//! line, the text pushed to web clients, and the time tags of LRC lines.
use vstd::prelude::*;
use crate::text::{is_white_space, str_chars, string_from_chars, white_space};

verus! {

/// `s` without its leading white space.
pub open spec fn trim_start(s: Seq<char>) -> Seq<char>
    decreases s.len(),
{
    if s.len() > 0 && is_white_space(s[0]) {
        trim_start(s.drop_first())
    } else {
        s
    }
}

/// `s` without its trailing white space.
pub open spec fn trim_end(s: Seq<char>) -> Seq<char>
    decreases s.len(),
{
    if s.len() > 0 && is_white_space(s.last()) {
        trim_end(s.drop_last())
    } else {
        s
    }
}

/// `s` without leading and trailing white space.
pub open spec fn trim(s: Seq<char>) -> Seq<char> {
    trim_end(trim_start(s))
}

pub proof fn lemma_trim_start_is_suffix(s: Seq<char>)
    ensures
        trim_start(s).len() <= s.len(),
        trim_start(s) == s.skip(s.len() - trim_start(s).len()),
        forall|i: int| 0 <= i < s.len() - trim_start(s).len() ==> is_white_space(#[trigger] s[i]),
    decreases s.len(),
{
    if s.len() > 0 && is_white_space(s[0]) {
        lemma_trim_start_is_suffix(s.drop_first());
        let t = trim_start(s.drop_first());
        assert(s.drop_first().skip(s.drop_first().len() - t.len()) =~= s.skip(s.len() - t.len()));
        assert forall|i: int| 0 <= i < s.len() - t.len() implies is_white_space(#[trigger] s[i]) by {
            if i > 0 {
                assert(s[i] == s.drop_first()[i - 1]);
            }
        }
    } else {
        assert(s.skip(0) =~= s);
    }
}

pub proof fn lemma_trim_end_is_prefix(s: Seq<char>)
    ensures
        trim_end(s).len() <= s.len(),
        trim_end(s) == s.take(trim_end(s).len() as int),
        forall|i: int| trim_end(s).len() <= i < s.len() ==> is_white_space(#[trigger] s[i]),
    decreases s.len(),
{
    if s.len() > 0 && is_white_space(s.last()) {
        lemma_trim_end_is_prefix(s.drop_last());
        let t = trim_end(s.drop_last());
        assert(s.drop_last().take(t.len() as int) =~= s.take(t.len() as int));
        assert forall|i: int| t.len() <= i < s.len() implies is_white_space(#[trigger] s[i]) by {
            if i < s.len() - 1 {
                assert(s[i] == s.drop_last()[i]);
            }
        }
    } else {
        assert(s.take(s.len() as int) =~= s);
    }
}

/// Trims white space from both ends of a string.
pub fn trim_chars(s: &Vec<char>) -> (out: Vec<char>)
    ensures
        out@ == trim(s@),
{
    let n = s.len();
    let mut start: usize = 0;
    assert(s@.skip(0) =~= s@);
    while start < n && white_space(s[start])
        invariant
            n == s@.len(),
            start <= n,
            trim_start(s@) == trim_start(s@.skip(start as int)),
        decreases n - start,
    {
        assert(s@.skip(start as int).drop_first() =~= s@.skip(start + 1));
        start = start + 1;
    }
    let ghost front = s@.skip(start as int);
    assert(trim_start(s@) == front) by {
        if front.len() > 0 {
            assert(front[0] == s@[start as int]);
        }
    }
    let mut end: usize = n;
    while end > start && white_space(s[end - 1])
        invariant
            n == s@.len(),
            start <= end <= n,
            front == s@.skip(start as int),
            trim_end(front) == trim_end(s@.subrange(start as int, end as int)),
        decreases end - start,
    {
        assert(s@.subrange(start as int, end as int).drop_last() =~= s@.subrange(start as int, end - 1));
        end = end - 1;
    }
    assert(trim_end(s@.subrange(start as int, end as int)) == s@.subrange(start as int, end as int)) by {
        if end > start {
            assert(s@.subrange(start as int, end as int).last() == s@[end - 1]);
        }
    }
    assert(front =~= s@.subrange(start as int, n as int));
    let mut out: Vec<char> = Vec::new();
    let mut i = start;
    while i < end
        invariant
            start <= i <= end <= n,
            n == s@.len(),
            out@ == s@.subrange(start as int, i as int),
        decreases end - i,
    {
        out.push(s[i]);
        i = i + 1;
        assert(out@ =~= s@.subrange(start as int, i as int));
    }
    out
}

/// A string of the same characters.
fn string_of(s: &String) -> (out: String)
    ensures
        out@ == s@,
{
    s.clone()
}

/// An empty string.
fn empty_string() -> (out: String)
    ensures
        out@ == Seq::<char>::empty(),
{
    String::new()
}

/// The 11 lines shown when only a single lyric is known: five empty lines, the
/// lyric without surrounding white space, five empty lines.
pub open spec fn centered_lines(lyric: Seq<char>) -> Seq<Seq<char>> {
    Seq::new(11, |i: int| if i == 5 { trim(lyric) } else { Seq::<char>::empty() })
}

/// The 11 display lines for a lone lyric, with it in the middle.
pub fn centered_lyric_lines(lyric: &str) -> (lines: Vec<String>)
    ensures
        lines@.len() == 11,
        forall|i: int| 0 <= i < 11 ==> (#[trigger] lines@[i])@ == centered_lines(lyric@)[i],
{
    let chars = str_chars(lyric);
    let trimmed = trim_chars(&chars);
    let mut lines: Vec<String> = Vec::new();
    let mut i: usize = 0;
    while i < 11
        invariant
            i <= 11,
            trimmed@ == trim(lyric@),
            lines@.len() == i,
            forall|j: int| 0 <= j < i ==> (#[trigger] lines@[j])@ == centered_lines(lyric@)[j],
        decreases 11 - i,
    {
        if i == 5 {
            lines.push(string_from_chars(&trimmed));
        } else {
            lines.push(empty_string());
        }
        i = i + 1;
    }
    lines
}

/// Whether every line is empty once trimmed.
pub open spec fn all_blank(lines: Seq<String>) -> bool {
    forall|i: int| 0 <= i < lines.len() ==> trim(#[trigger] lines[i]@).len() == 0
}

/// Tells whether every line is empty once trimmed (such a lyric is not drawn).
pub fn all_lines_blank(lines: &Vec<String>) -> (b: bool)
    ensures
        b == all_blank(lines@),
{
    let mut i: usize = 0;
    while i < lines.len()
        invariant
            i <= lines@.len(),
            forall|j: int| 0 <= j < i ==> trim(#[trigger] lines@[j]@).len() == 0,
        decreases lines@.len() - i,
    {
        let chars = str_chars(lines[i].as_str());
        let t = trim_chars(&chars);
        if t.len() != 0 {
            return false;
        }
        i = i + 1;
    }
    true
}

/// The 11 lines around lyric `target`: the five before it (empty where the song
/// has none), `display` in the middle, and the five after it (empty past the end).
pub open spec fn window_line(texts: Seq<String>, target: int, display: Seq<char>, i: int) -> Seq<char> {
    if i < 5 {
        let j = target - 5 + i;
        if j >= 0 {
            texts[j]@
        } else {
            Seq::empty()
        }
    } else if i == 5 {
        display
    } else {
        let j = target + i - 5;
        if j < texts.len() {
            texts[j]@
        } else {
            Seq::empty()
        }
    }
}

/// Builds the 11 display lines around lyric `target_idx` of a song.
pub fn lyric_window(texts: &Vec<String>, target_idx: usize, display: String) -> (lines: Vec<String>)
    requires
        target_idx < texts@.len(),
        target_idx + 5 <= usize::MAX,
    ensures
        lines@.len() == 11,
        forall|i: int| 0 <= i < 11 ==> (#[trigger] lines@[i])@ == window_line(texts@, target_idx as int, display@, i),
{
    let mut lines: Vec<String> = Vec::new();
    let mut i: usize = 0;
    while i < 5
        invariant
            target_idx < texts@.len(),
            target_idx + 5 <= usize::MAX,
            i <= 5,
            lines@.len() == i,
            forall|j: int| 0 <= j < i ==> (#[trigger] lines@[j])@ == window_line(texts@, target_idx as int, display@, j),
        decreases 5 - i,
    {
        if target_idx + i >= 5 {
            lines.push(string_of(&texts[target_idx + i - 5]));
        } else {
            lines.push(empty_string());
        }
        i = i + 1;
    }
    let ghost d = display@;
    lines.push(display);
    let mut k: usize = 1;
    while k <= 5
        invariant
            target_idx < texts@.len(),
            target_idx + 5 <= usize::MAX,
            1 <= k <= 6,
            lines@.len() == 5 + k,
            forall|j: int| 0 <= j < 5 + k ==> (#[trigger] lines@[j])@ == window_line(texts@, target_idx as int, d, j),
        decreases 6 - k,
    {
        let j = target_idx + k;
        if j < texts.len() {
            lines.push(string_of(&texts[j]));
        } else {
            lines.push(empty_string());
        }
        k = k + 1;
    }
    lines
}

/// A lyric with its translation on a second line, if it has one.
pub open spec fn with_translation(text: Seq<char>, trans: Option<Seq<char>>) -> Seq<char> {
    match trans {
        Some(t) => text + seq!['\n'] + t,
        None => text,
    }
}

/// The middle-line text of a lyric: the lyric, then its translation on a second line.
pub fn display_text(text: &String, trans: &Option<String>) -> (out: String)
    ensures
        out@ == with_translation(text@, match trans {
            Some(t) => Some(t@),
            None => None,
        }),
{
    let mut out = string_of(text);
    match trans {
        Some(t) => {
            out.append("\n");
            proof {
                reveal_strlit("\n");
            }
            out.append(t.as_str());
        },
        None => {},
    }
    out
}

} // verus!
verus! {

/// `s` with every newline written as ` - `.
pub open spec fn dashed_newlines(s: Seq<char>) -> Seq<char>
    decreases s.len(),
{
    if s.len() == 0 {
        Seq::empty()
    } else if s.last() == '\n' {
        dashed_newlines(s.drop_last()) + seq![' ', '-', ' ']
    } else {
        dashed_newlines(s.drop_last()).push(s.last())
    }
}

/// The one-line text sent to web clients for a lyric message: the middle line
/// when the message is a list of 11 or 13 lines, else the raw message; newlines
/// become ` - `.
pub open spec fn web_text(raw: Seq<char>, lines: Option<Seq<String>>) -> Seq<char> {
    let chosen = match lines {
        Some(l) => if l.len() == 11 || l.len() == 13 {
            l[(l.len() / 2) as int]@
        } else {
            raw
        },
        None => raw,
    };
    dashed_newlines(chosen)
}

/// The text to push to web clients for a lyric message. `lines` are the lines
/// the message lists, if it is such a list.
pub fn web_lyric_text(raw: &str, lines: &Option<Vec<String>>) -> (out: String)
    ensures
        out@ == web_text(raw@, match lines {
            Some(l) => Some(l@),
            None => None,
        }),
{
    let chosen: Vec<char> = match lines {
        Some(l) => if l.len() == 11 || l.len() == 13 {
            str_chars(l[l.len() / 2].as_str())
        } else {
            str_chars(raw)
        },
        None => str_chars(raw),
    };
    let mut out: Vec<char> = Vec::new();
    let mut i: usize = 0;
    while i < chosen.len()
        invariant
            i <= chosen@.len(),
            out@ == dashed_newlines(chosen@.take(i as int)),
        decreases chosen@.len() - i,
    {
        assert(chosen@.take(i + 1).drop_last() == chosen@.take(i as int));
        if chosen[i] == '\n' {
            out.push(' ');
            out.push('-');
            out.push(' ');
        } else {
            out.push(chosen[i]);
        }
        i = i + 1;
        assert(out@ =~= dashed_newlines(chosen@.take(i as int)));
    }
    assert(chosen@.take(i as int) == chosen@);
    string_from_chars(&out)
}

/// Position of the first `c` in `s`, if any.
pub open spec fn first_index_of(s: Seq<char>, c: char) -> Option<int>
    decreases s.len(),
{
    if s.len() == 0 {
        None
    } else if s[0] == c {
        Some(0)
    } else {
        match first_index_of(s.drop_first(), c) {
            Some(i) => Some(i + 1),
            None => None,
        }
    }
}

pub proof fn lemma_first_index_of(s: Seq<char>, c: char)
    ensures
        first_index_of(s, c) matches Some(i) ==> 0 <= i < s.len() && s[i] == c && forall|j: int| 0 <= j < i ==> s[j] != c,
        first_index_of(s, c) is None ==> forall|j: int| 0 <= j < s.len() ==> s[j] != c,
    decreases s.len(),
{
    if s.len() > 0 {
        lemma_first_index_of(s.drop_first(), c);
        assert forall|j: int| 1 <= j < s.len() implies s[j] == s.drop_first()[j - 1] by {}
    }
}

pub proof fn lemma_trim_len(s: Seq<char>)
    ensures
        trim(s).len() <= s.len(),
{
    lemma_trim_start_is_suffix(s);
    lemma_trim_end_is_prefix(trim_start(s));
}

/// Time tags and text of a trimmed LRC line: while it opens with `[` and holds a
/// `]`, the text up to the first `]` is a tag and the trimmed rest is read on.
pub open spec fn lrc_split_trimmed(t: Seq<char>) -> (Seq<Seq<char>>, Seq<char>)
    decreases t.len(),
{
    if t.len() > 0 && t[0] == '[' && first_index_of(t, ']') is Some {
        let e = first_index_of(t, ']')->0;
        proof {
            lemma_first_index_of(t, ']');
            lemma_trim_len(t.skip(e + 1));
        }
        let rest = lrc_split_trimmed(trim(t.skip(e + 1)));
        (seq![t.subrange(1, e)] + rest.0, rest.1)
    } else {
        (Seq::empty(), t)
    }
}

/// Time tags and text of an LRC line: `[00:12.34][01:02.00] text` gives the tags
/// `00:12.34` and `01:02.00` and the text `text`.
pub open spec fn lrc_split(line: Seq<char>) -> (Seq<Seq<char>>, Seq<char>) {
    lrc_split_trimmed(trim(line))
}

fn sub_chars(s: &Vec<char>, from: usize, to: usize) -> (out: Vec<char>)
    requires
        from <= to <= s@.len(),
    ensures
        out@ == s@.subrange(from as int, to as int),
{
    let mut out: Vec<char> = Vec::new();
    let mut i = from;
    while i < to
        invariant
            from <= i <= to <= s@.len(),
            out@ == s@.subrange(from as int, i as int),
        decreases to - i,
    {
        out.push(s[i]);
        i = i + 1;
        assert(out@ =~= s@.subrange(from as int, i as int));
    }
    out
}

/// Splits an LRC line into its time tags and its text.
pub fn split_lrc_tags(line: &str) -> (r: (Vec<String>, String))
    ensures
        r.0@.len() == lrc_split(line@).0.len(),
        forall|i: int| 0 <= i < r.0@.len() ==> (#[trigger] r.0@[i])@ == lrc_split(line@).0[i],
        r.1@ == lrc_split(line@).1,
{
    let chars = str_chars(line);
    let mut rest = trim_chars(&chars);
    let mut tags: Vec<String> = Vec::new();
    loop
        invariant
            lrc_split(line@).0 == tags@.map_values(|t: String| t@) + lrc_split_trimmed(rest@).0,
            lrc_split(line@).1 == lrc_split_trimmed(rest@).1,
        ensures
            lrc_split_trimmed(rest@).0 =~= Seq::<Seq<char>>::empty(),
        decreases rest@.len(),
    {
        if rest.len() == 0 || rest[0] != '[' {
            break;
        }
        let mut e: usize = 0;
        while e < rest.len() && rest[e] != ']'
            invariant
                e <= rest@.len(),
                forall|j: int| 0 <= j < e ==> rest@[j] != ']',
            decreases rest@.len() - e,
        {
            e = e + 1;
        }
        proof {
            lemma_first_index_of(rest@, ']');
        }
        if e == rest.len() {
            assert(first_index_of(rest@, ']') is None);
            break;
        }
        assert(first_index_of(rest@, ']') == Some(e as int));
        let tag = sub_chars(&rest, 1, e);
        let after = sub_chars(&rest, e + 1, rest.len());
        let next = trim_chars(&after);
        let ghost old_rest = rest@;
        let ghost old_tags = tags@.map_values(|t: String| t@);
        tags.push(string_from_chars(&tag));
        proof {
            assert(after@ == old_rest.skip(e + 1));
            lemma_trim_len(after@);
            assert(tags@.map_values(|t: String| t@) =~= old_tags.push(tag@));
            assert(lrc_split_trimmed(old_rest).0 == seq![tag@] + lrc_split_trimmed(next@).0);
            assert(old_tags + (seq![tag@] + lrc_split_trimmed(next@).0) =~= old_tags.push(tag@) + lrc_split_trimmed(next@).0);
        }
        rest = next;
    }
    assert(lrc_split(line@).0 =~= tags@.map_values(|t: String| t@));
    (tags, string_from_chars(&rest))
}


/// The genre tag that carries a song's id: `NCM-`.
pub open spec fn ncm_prefix() -> Seq<char> {
    seq!['N', 'C', 'M', '-']
}

/// Whether `s` opens with `NCM-`.
pub open spec fn opens_with_ncm(s: Seq<char>) -> bool {
    s.len() >= 4 && s.take(4) == ncm_prefix()
}

/// `s` with every `NCM-` removed, scanning from the left.
pub open spec fn without_ncm(s: Seq<char>) -> Seq<char>
    decreases s.len(),
{
    if s.len() == 0 {
        Seq::empty()
    } else if opens_with_ncm(s) {
        without_ncm(s.skip(4))
    } else {
        seq![s[0]] + without_ncm(s.drop_first())
    }
}

/// The song id the media session's genres carry: the first genre that opens with
/// `NCM-`, with every `NCM-` removed from it.
pub open spec fn ncm_id(genres: Seq<String>) -> Option<Seq<char>>
    decreases genres.len(),
{
    if genres.len() == 0 {
        None
    } else if opens_with_ncm(genres[0]@) {
        Some(without_ncm(genres[0]@))
    } else {
        ncm_id(genres.drop_first())
    }
}

fn opens_with_ncm_at(s: &Vec<char>, i: usize) -> (b: bool)
    requires
        i <= s@.len(),
    ensures
        b == opens_with_ncm(s@.skip(i as int)),
{
    if s.len() - i < 4 {
        return false;
    }
    let b = s[i] == 'N' && s[i + 1] == 'C' && s[i + 2] == 'M' && s[i + 3] == '-';
    assert(b == (s@.skip(i as int).take(4) =~= ncm_prefix()));
    b
}

/// Reads the song id out of the genres of a media session (see `ncm_id`).
pub fn ncm_song_id(genres: &Vec<String>) -> (id: Option<String>)
    ensures
        match id {
            Some(v) => ncm_id(genres@) == Some(v@),
            None => ncm_id(genres@) is None,
        },
{
    let mut k: usize = 0;
    assert(genres@.skip(0) =~= genres@);
    while k < genres.len()
        invariant
            k <= genres@.len(),
            ncm_id(genres@) == ncm_id(genres@.skip(k as int)),
        decreases genres@.len() - k,
    {
        assert(genres@.skip(k as int).drop_first() == genres@.skip(k + 1));
        let chars = str_chars(genres[k].as_str());
        assert(chars@.skip(0) =~= chars@);
        assert(genres@.skip(k as int)[0] == genres@[k as int]);
        if opens_with_ncm_at(&chars, 0) {
            let ghost s = chars@;
            let mut out: Vec<char> = Vec::new();
            let mut i: usize = 0;
            while i < chars.len()
                invariant
                    s == chars@,
                    i <= s.len(),
                    out@ + without_ncm(s.skip(i as int)) == without_ncm(s),
                decreases s.len() - i,
            {
                let ghost t = s.skip(i as int);
                if opens_with_ncm_at(&chars, i) {
                    assert(t.skip(4) == s.skip(i + 4));
                    i = i + 4;
                } else {
                    assert(t.drop_first() == s.skip(i + 1));
                    assert(out@.push(chars[i as int]) + without_ncm(s.skip(i + 1)) == out@ + without_ncm(t));
                    out.push(chars[i]);
                    i = i + 1;
                }
            }
            assert(s.skip(i as int).len() == 0);
            assert(out@ == without_ncm(s));
            return Some(string_from_chars(&out));
        }
        k = k + 1;
    }
    None
}


/// Whether `y[i..j]` is `y` without its leading and trailing white space.
pub open spec fn trims_to(y: Seq<char>, i: int, j: int) -> bool {
    &&& 0 <= i <= j <= y.len()
    &&& forall|k: int| 0 <= k < i ==> is_white_space(#[trigger] y[k])
    &&& forall|k: int| j <= k < y.len() ==> is_white_space(#[trigger] y[k])
    &&& i < j ==> !is_white_space(y[i]) && !is_white_space(y[j - 1])
}

proof fn lemma_trim_start_head(s: Seq<char>)
    ensures
        trim_start(s).len() > 0 ==> !is_white_space(trim_start(s)[0]),
    decreases s.len(),
{
    if s.len() > 0 && is_white_space(s[0]) {
        lemma_trim_start_head(s.drop_first());
    }
}

proof fn lemma_trim_end_tail(s: Seq<char>)
    ensures
        trim_end(s).len() > 0 ==> !is_white_space(trim_end(s).last()),
    decreases s.len(),
{
    if s.len() > 0 && is_white_space(s.last()) {
        lemma_trim_end_tail(s.drop_last());
    }
}

/// Trimming cuts a string down to the part between its first and last
/// characters that are not white space.
proof fn lemma_trim_range(y: Seq<char>) -> (r: (int, int))
    ensures
        trims_to(y, r.0, r.1),
        trim(y) == y.subrange(r.0, r.1),
{
    let ts = trim_start(y);
    lemma_trim_start_is_suffix(y);
    lemma_trim_start_head(y);
    let k = y.len() - ts.len();
    let te = trim_end(ts);
    lemma_trim_end_is_prefix(ts);
    lemma_trim_end_tail(ts);
    let m = te.len() as int;
    assert forall|q: int| k + m <= q < y.len() implies is_white_space(#[trigger] y[q]) by {
        assert(y[q] == ts[q - k]);
    }
    if m > 0 {
        assert(y[k] == ts[0]);
        assert(te[0] == ts[0]);
        assert(y[k + m - 1] == te.last());
    }
    assert(te =~= y.subrange(k, k + m));
    (k, k + m)
}

/// The part left by trimming is unique.
proof fn lemma_trims_to_unique(y: Seq<char>, i: int, j: int, i2: int, j2: int)
    requires
        trims_to(y, i, j),
        trims_to(y, i2, j2),
    ensures
        y.subrange(i, j) == y.subrange(i2, j2),
{
    if i < j && i2 < j2 {
        assert(!(i < i2)) by {
            if i < i2 {
                assert(is_white_space(y[i]));
            }
        }
        assert(!(i2 < i)) by {
            if i2 < i {
                assert(is_white_space(y[i2]));
            }
        }
        assert(!(j < j2)) by {
            if j < j2 {
                assert(is_white_space(y[j2 - 1]));
            }
        }
        assert(!(j2 < j)) by {
            if j2 < j {
                assert(is_white_space(y[j - 1]));
            }
        }
    } else if i < j {
        assert(is_white_space(y[i])) by {
            if i < i2 {
            } else {
                assert(i >= j2);
            }
        }
    } else if i2 < j2 {
        assert(is_white_space(y[i2])) by {
            if i2 < i {
            } else {
                assert(i2 >= j);
            }
        }
    }
}

proof fn lemma_trim_is_trimmed(y: Seq<char>)
    ensures
        trim(trim(y)) == trim(y),
{
    let (i, j) = lemma_trim_range(y);
    let t = trim(y);
    let (i2, j2) = lemma_trim_range(t);
    assert(trims_to(t, 0, t.len() as int));
    lemma_trims_to_unique(t, 0, t.len() as int, i2, j2);
    assert(t.subrange(0, t.len() as int) =~= t);
}

/// Trimming after leading white space, or after cutting off trailing white
/// space, gives the same as trimming the rest.
proof fn lemma_trim_white_then(w: Seq<char>, x: Seq<char>, n: int)
    requires
        forall|k: int| 0 <= k < w.len() ==> is_white_space(#[trigger] w[k]),
        0 <= n <= w.len() + x.len(),
        forall|k: int| n <= k < w.len() + x.len() ==> is_white_space(#[trigger] (w + x)[k]),
    ensures
        trim((w + x).take(n)) == trim(x),
{
    let y = w + x;
    let z = y.take(n);
    let (i, j) = lemma_trim_range(z);
    assert(trims_to(y, i, j)) by {
        assert forall|k: int| j <= k < y.len() implies is_white_space(#[trigger] y[k]) by {
            if k < n {
                assert(z[k] == y[k]);
            }
        }
        assert forall|k: int| 0 <= k < i implies is_white_space(#[trigger] y[k]) by {
            assert(z[k] == y[k]);
        }
        if i < j {
            assert(z[i] == y[i]);
            assert(z[j - 1] == y[j - 1]);
        }
    }
    let (i3, j3) = lemma_trim_range(x);
    let wl = w.len() as int;
    if i < j {
        assert(i >= wl) by {
            if i < wl {
                assert(y[i] == w[i]);
                assert(z[i] == y[i]);
            }
        }
        assert(trims_to(x, i - wl, j - wl)) by {
            assert forall|k: int| 0 <= k < i - wl implies is_white_space(#[trigger] x[k]) by {
                assert(y[k + wl] == x[k]);
            }
            assert forall|k: int| j - wl <= k < x.len() implies is_white_space(#[trigger] x[k]) by {
                assert(y[k + wl] == x[k]);
            }
            assert(y[i] == x[i - wl]);
            assert(y[j - 1] == x[j - 1 - wl]);
        }
        lemma_trims_to_unique(x, i - wl, j - wl, i3, j3);
        assert(z.subrange(i, j) =~= x.subrange(i - wl, j - wl));
    } else {
        assert(trims_to(x, 0, 0)) by {
            assert forall|k: int| 0 <= k < x.len() implies is_white_space(#[trigger] x[k]) by {
                assert(y[k + wl] == x[k]);
                if k + wl < i {
                } else {
                    assert(k + wl >= j);
                }
            }
        }
        lemma_trims_to_unique(x, 0, 0, i3, j3);
        assert(z.subrange(i, j) =~= Seq::<char>::empty());
        assert(x.subrange(0, 0) =~= Seq::<char>::empty());
    }
}

/// A leading bracketed tag is taken off an LRC line, however much white space
/// follows it: the line `[tag]` + white space + `rest` splits into `tag` followed
/// by the tags of `rest`, and the text of `rest`.
pub proof fn lrc_tag_is_taken_off(tag: Seq<char>, gap: Seq<char>, rest: Seq<char>)
    requires
        forall|k: int| 0 <= k < tag.len() ==> #[trigger] tag[k] != ']',
        forall|k: int| 0 <= k < gap.len() ==> is_white_space(#[trigger] gap[k]),
    ensures
        lrc_split(seq!['['] + tag + seq![']'] + gap + rest) == (seq![tag] + lrc_split(rest).0, lrc_split(rest).1),
{
    let p = seq!['['] + tag + seq![']'];
    let q = gap + rest;
    let line = p + q;
    assert(line =~= seq!['['] + tag + seq![']'] + gap + rest);
    let (i, j) = lemma_trim_range(line);
    let pl = p.len() as int;
    assert(line[0] == '[');
    assert(line[pl - 1] == ']');
    assert(i == 0) by {
        if i > 0 {
            assert(is_white_space(line[0]));
        }
    }
    assert(j >= pl) by {
        if j < pl {
            assert(is_white_space(line[pl - 1]));
        }
    }
    let t = trim(line);
    assert(t =~= p + q.take(j - pl));
    let e: int = tag.len() as int + 1;
    lemma_first_index_of(t, ']');
    assert(t[e] == ']');
    assert forall|k: int| 0 <= k < e implies #[trigger] t[k] != ']' by {
        if k > 0 {
            assert(t[k] == tag[k - 1]);
        }
    }
    assert(first_index_of(t, ']') == Some(e)) by {
        match first_index_of(t, ']') {
            Some(f) => {
                assert(!(f < e));
                assert(!(e < f));
            },
            None => {},
        }
    }
    assert(t.subrange(1, e) =~= tag);
    assert(t.skip(e + 1) =~= q.take(j - pl));
    assert forall|k: int| j - pl <= k < q.len() implies is_white_space(#[trigger] (gap + rest)[k]) by {
        assert(line[k + pl] == q[k]);
    }
    lemma_trim_white_then(gap, rest, j - pl);
    assert(lrc_split_trimmed(t) == (seq![t.subrange(1, e)] + lrc_split_trimmed(trim(t.skip(e + 1))).0,
        lrc_split_trimmed(trim(t.skip(e + 1))).1));
}

proof fn lemma_lrc_text(t: Seq<char>)
    requires
        trim(t) == t,
    ensures
        trim(lrc_split_trimmed(t).1) == lrc_split_trimmed(t).1,
        lrc_split_trimmed(t).1.len() > 0 && lrc_split_trimmed(t).1[0] == '[' ==> forall|k: int|
            0 <= k < lrc_split_trimmed(t).1.len() ==> #[trigger] lrc_split_trimmed(t).1[k] != ']',
    decreases t.len(),
{
    lemma_first_index_of(t, ']');
    if t.len() > 0 && t[0] == '[' && first_index_of(t, ']') is Some {
        let e = first_index_of(t, ']')->0;
        lemma_trim_len(t.skip(e + 1));
        lemma_trim_is_trimmed(t.skip(e + 1));
        lemma_lrc_text(trim(t.skip(e + 1)));
    }
}

/// The text of an LRC line has no white space at either end, and never starts
/// with a bracketed tag: when it opens with `[`, it holds no `]` at all.
pub proof fn lrc_text_is_untagged(line: Seq<char>)
    ensures
        trim(lrc_split(line).1) == lrc_split(line).1,
        lrc_split(line).1.len() > 0 && lrc_split(line).1[0] == '[' ==> forall|k: int|
            0 <= k < lrc_split(line).1.len() ==> #[trigger] lrc_split(line).1[k] != ']',
{
    lemma_trim_is_trimmed(line);
    lemma_lrc_text(trim(line));
}

} // verus!
