//! Text rules for lyric lines.
use vstd::prelude::*;

verus! {

/// Whether `c` has the Unicode `White_Space` property.
pub open spec fn is_white_space(c: char) -> bool {
    let n = c as u32;
    (0x09 <= n <= 0x0D) || n == 0x20 || n == 0x85 || n == 0xA0 || n == 0x1680 || (0x2000 <= n
        <= 0x200A) || n == 0x2028 || n == 0x2029 || n == 0x202F || n == 0x205F || n == 0x3000
}

/// Tells whether `c` is Unicode white space.
pub fn white_space(c: char) -> (b: bool)
    ensures
        b == is_white_space(c),
{
    let n = c as u32;
    (0x09 <= n && n <= 0x0D) || n == 0x20 || n == 0x85 || n == 0xA0 || n == 0x1680 || (0x2000 <= n
        && n <= 0x200A) || n == 0x2028 || n == 0x2029 || n == 0x202F || n == 0x205F || n == 0x3000
}

/// The characters of a string slice.
pub fn str_chars(s: &str) -> (v: Vec<char>)
    ensures
        v@ == s@,
{
    let n = s.unicode_len();
    let mut v: Vec<char> = Vec::new();
    let mut i: usize = 0;
    while i < n
        invariant
            n == s@.len(),
            i <= n,
            v@ == s@.take(i as int),
        decreases n - i,
    {
        v.push(s.get_char(i));
        i = i + 1;
        assert(s@.take(i as int) == s@.take(i - 1) + seq![s@[i - 1]]);
    }
    assert(s@.take(n as int) == s@);
    v
}

/// Collects characters into a string, in order (std's `FromIterator<char>` for `String`).
#[verifier::external_body]
pub(crate) fn string_from_chars(chars: &Vec<char>) -> (s: String)
    ensures
        s@ == chars@,
{
    chars.iter().collect()
}

/// Carriage returns, tabs, ideographic spaces and no-break spaces read as plain spaces.
pub open spec fn spaced(c: char) -> char {
    if c == '\r' || c == '\t' || c == '\u{3000}' || c == '\u{00A0}' {
        ' '
    } else {
        c
    }
}

/// Whether `c` lies in the CJK blocks: radicals to unified ideographs, Hangul
/// syllables, compatibility ideographs, and half- and full-width forms.
pub open spec fn is_cjk(c: char) -> bool {
    let n = c as u32;
    (0x2E80 <= n <= 0x9FFF) || (0xAC00 <= n <= 0xD7AF) || (0xF900 <= n <= 0xFAFF) || (0xFF00 <= n
        <= 0xFFEF)
}

/// Whether some character of `s` is CJK.
pub open spec fn has_cjk(s: Seq<char>) -> bool {
    exists|i: int| 0 <= i < s.len() && #[trigger] is_cjk(s[i])
}

/// `s` with every white-space character removed.
pub open spec fn without_white_space(s: Seq<char>) -> Seq<char>
    decreases s.len(),
{
    if s.len() == 0 {
        Seq::empty()
    } else if is_white_space(s.last()) {
        without_white_space(s.drop_last())
    } else {
        without_white_space(s.drop_last()).push(s.last())
    }
}

/// The words of `s` (maximal runs of non-white-space characters) joined by single
/// spaces. `gap` says that white space follows a word already written, `started`
/// that a word has been written.
pub open spec fn squeeze(s: Seq<char>, gap: bool, started: bool) -> Seq<char>
    decreases s.len(),
{
    if s.len() == 0 {
        Seq::empty()
    } else if is_white_space(s[0]) {
        squeeze(s.drop_first(), started, started)
    } else if gap {
        seq![' ', s[0]] + squeeze(s.drop_first(), false, true)
    } else {
        seq![s[0]] + squeeze(s.drop_first(), false, true)
    }
}

/// The words of `s` joined by single spaces.
pub open spec fn collapse_white_space(s: Seq<char>) -> Seq<char> {
    squeeze(s, false, false)
}

/// A lyric line normalized for display: tabs, carriage returns and unusual spaces
/// become spaces; then a line with CJK text loses all white space, and any other
/// line keeps its words joined by single spaces.
pub open spec fn normalized_line(s: Seq<char>) -> Seq<char> {
    let r = s.map_values(|c: char| spaced(c));
    if has_cjk(r) {
        without_white_space(r)
    } else {
        collapse_white_space(r)
    }
}

/// Normalizes one lyric line for display.
pub fn normalize_single_lyric_line(line: &str) -> (out: String)
    ensures
        out@ == normalized_line(line@),
{
    let chars = str_chars(line);
    let normalized = normalize_chars(&chars);
    string_from_chars(&normalized)
}

/// Normalizes the characters of one lyric line.
fn normalize_chars(chars: &Vec<char>) -> (out: Vec<char>)
    ensures
        out@ == normalized_line(chars@),
{
    let ghost line = chars@;
    let ghost r = line.map_values(|c: char| spaced(c));
    let mut spaced_chars: Vec<char> = Vec::new();
    let mut cjk = false;
    let mut i: usize = 0;
    while i < chars.len()
        invariant
            chars@ == line,
            r == line.map_values(|c: char| spaced(c)),
            i <= chars.len(),
            spaced_chars@ == r.take(i as int),
            cjk == exists|j: int| 0 <= j < i && #[trigger] is_cjk(r[j]),
        decreases chars.len() - i,
    {
        let c = chars[i];
        let d = if c == '\r' || c == '\t' || c == '\u{3000}' || c == '\u{00A0}' {
            ' '
        } else {
            c
        };
        assert(d == r[i as int]);
        let n = d as u32;
        let is_c = (0x2E80 <= n && n <= 0x9FFF) || (0xAC00 <= n && n <= 0xD7AF) || (0xF900 <= n
            && n <= 0xFAFF) || (0xFF00 <= n && n <= 0xFFEF);
        assert(is_c == is_cjk(r[i as int]));
        let ghost old_i = i;
        if is_c {
            cjk = true;
        }
        spaced_chars.push(d);
        i = i + 1;
        assert(cjk == exists|j: int| 0 <= j < i && #[trigger] is_cjk(r[j])) by {
            if is_c {
                assert(is_cjk(r[old_i as int]));
            }
        }
        assert(spaced_chars@ =~= r.take(i as int));
    }
    assert(r.take(i as int) == r);
    let mut out: Vec<char> = Vec::new();
    let mut i: usize = 0;
    if cjk {
        while i < spaced_chars.len()
            invariant
                spaced_chars@ == r,
                i <= r.len(),
                out@ == without_white_space(r.take(i as int)),
            decreases r.len() - i,
        {
            let c = spaced_chars[i];
            assert(r.take(i + 1).drop_last() == r.take(i as int));
            if !white_space(c) {
                out.push(c);
            }
            i = i + 1;
        }
        assert(r.take(i as int) == r);
    } else {
        let mut gap = false;
        let mut started = false;
        assert(r.skip(0) == r);
        while i < spaced_chars.len()
            invariant
                spaced_chars@ == r,
                i <= r.len(),
                out@ + squeeze(r.skip(i as int), gap, started) == collapse_white_space(r),
            decreases r.len() - i,
        {
            let c = spaced_chars[i];
            assert(r.skip(i as int).drop_first() == r.skip(i + 1));
            assert(r.skip(i as int)[0] == c);
            if white_space(c) {
                gap = started;
            } else {
                if gap {
                    out.push(' ');
                }
                out.push(c);
                gap = false;
                started = true;
            }
            i = i + 1;
        }
        assert(r.skip(i as int) =~= Seq::<char>::empty());
    }
    out
}

/// The lines of `s`, split at each newline (the newlines themselves dropped).
pub open spec fn split_lines(s: Seq<char>) -> Seq<Seq<char>>
    decreases s.len(),
{
    if s.len() == 0 {
        seq![Seq::empty()]
    } else if s.last() == '\n' {
        split_lines(s.drop_last()).push(Seq::empty())
    } else {
        let p = split_lines(s.drop_last());
        p.update(p.len() - 1, p.last().push(s.last()))
    }
}

proof fn lemma_split_lines_len(s: Seq<char>)
    ensures
        split_lines(s).len() >= 1,
    decreases s.len(),
{
    if s.len() > 0 {
        lemma_split_lines_len(s.drop_last());
    }
}

/// The normalized forms of `lines` that are not empty, in order.
pub open spec fn kept_lines(lines: Seq<Seq<char>>) -> Seq<Seq<char>>
    decreases lines.len(),
{
    if lines.len() == 0 {
        Seq::empty()
    } else {
        let k = kept_lines(lines.drop_last());
        let n = normalized_line(lines.last());
        if n.len() > 0 {
            k.push(n)
        } else {
            k
        }
    }
}

/// `parts` joined with newlines between them.
pub open spec fn join_lines(parts: Seq<Seq<char>>) -> Seq<char>
    decreases parts.len(),
{
    if parts.len() == 0 {
        Seq::empty()
    } else if parts.len() == 1 {
        parts[0]
    } else {
        join_lines(parts.drop_last()) + seq!['\n'] + parts.last()
    }
}

/// A multi-line lyric entry normalized for display: each of its lines
/// normalized, empty ones dropped, the rest joined with newlines.
pub open spec fn normalized_entry(s: Seq<char>) -> Seq<char> {
    join_lines(kept_lines(split_lines(s)))
}

/// Appends the normalized `segment` to `out` if it is not empty.
fn keep_segment(out: &mut Vec<char>, any: &mut bool, segment: &Vec<char>, Ghost(done): Ghost<Seq<Seq<char>>>)
    requires
        old(out)@ == join_lines(kept_lines(done)),
        *old(any) == (kept_lines(done).len() > 0),
    ensures
        final(out)@ == join_lines(kept_lines(done.push(segment@))),
        *final(any) == (kept_lines(done.push(segment@)).len() > 0),
{
    let n = normalize_chars(segment);
    assert(done.push(segment@).drop_last() == done);
    if n.len() > 0 {
        if *any {
            out.push('\n');
        }
        let mut j: usize = 0;
        let ghost base = out@;
        while j < n.len()
            invariant
                j <= n.len(),
                out@ == base + n@.take(j as int),
            decreases n.len() - j,
        {
            out.push(n[j]);
            j = j + 1;
            assert(n@.take(j as int) == n@.take(j - 1) + seq![n@[j - 1]]);
        }
        assert(n@.take(j as int) == n@);
        *any = true;
        proof {
            let k = kept_lines(done);
            assert(kept_lines(done.push(segment@)) == k.push(n@));
            if k.len() > 0 {
                assert(k.push(n@).drop_last() == k);
            } else {
                assert(out@ =~= n@);
            }
        }
    }
}

/// Normalizes a multi-line lyric entry: every line is normalized, empty lines
/// are dropped, and the rest are joined with newlines.
pub fn normalize_lyric_entry(entry: &str) -> (out: String)
    ensures
        out@ == normalized_entry(entry@),
{
    let chars = str_chars(entry);
    let ghost s = chars@;
    let mut out: Vec<char> = Vec::new();
    let mut any = false;
    let mut segment: Vec<char> = Vec::new();
    let mut i: usize = 0;
    proof {
        lemma_split_lines_len(s.take(0));
        assert(s.take(0) =~= Seq::<char>::empty());
    }
    while i < chars.len()
        invariant
            s == chars@,
            i <= s.len(),
            split_lines(s.take(i as int)).len() >= 1,
            segment@ == split_lines(s.take(i as int)).last(),
            out@ == join_lines(kept_lines(split_lines(s.take(i as int)).drop_last())),
            any == (kept_lines(split_lines(s.take(i as int)).drop_last()).len() > 0),
        decreases s.len() - i,
    {
        let c = chars[i];
        let ghost p = split_lines(s.take(i as int));
        assert(s.take(i + 1).drop_last() == s.take(i as int));
        assert(s.take(i + 1).last() == c);
        if c == '\n' {
            assert(p.drop_last().push(segment@) == p);
            keep_segment(&mut out, &mut any, &segment, Ghost(p.drop_last()));
            segment = Vec::new();
            assert(split_lines(s.take(i + 1)) == p.push(Seq::<char>::empty()));
            assert(p.push(Seq::<char>::empty()).drop_last() == p);
        } else {
            segment.push(c);
            let ghost q = p.update(p.len() - 1, p.last().push(c));
            assert(q.drop_last() =~= p.drop_last());
        }
        i = i + 1;
    }
    assert(s.take(i as int) == s);
    let ghost p = split_lines(s);
    assert(p.drop_last().push(segment@) == p);
    keep_segment(&mut out, &mut any, &segment, Ghost(p.drop_last()));
    string_from_chars(&out)
}


/// Whether `t` holds words separated by single plain spaces: every white-space
/// character is a plain space with a non-white-space character on each side
/// (so there is none at either end).
pub open spec fn single_spaced(t: Seq<char>) -> bool {
    forall|i: int|
        0 <= i < t.len() && #[trigger] is_white_space(t[i]) ==> t[i] == ' ' && 0 < i && i + 1 < t.len()
            && !is_white_space(t[i - 1]) && !is_white_space(t[i + 1])
}

proof fn lemma_no_white_space(s: Seq<char>)
    ensures
        forall|i: int| 0 <= i < without_white_space(s).len() ==> !is_white_space(#[trigger] without_white_space(s)[i]),
    decreases s.len(),
{
    if s.len() > 0 {
        lemma_no_white_space(s.drop_last());
        let w = without_white_space(s.drop_last());
        if !is_white_space(s.last()) {
            assert forall|i: int| 0 <= i < w.push(s.last()).len() implies !is_white_space(#[trigger] w.push(s.last())[i]) by {
                if i < w.len() {
                    assert(w.push(s.last())[i] == w[i]);
                }
            }
        }
    }
}

proof fn lemma_squeeze_spacing(s: Seq<char>, gap: bool, started: bool)
    ensures
        ({
            let o = squeeze(s, gap, started);
            &&& o.len() > 0 && is_white_space(o[0]) ==> (gap || started) && o[0] == ' ' && o.len() >= 2
                && !is_white_space(o[1])
            &&& forall|i: int|
                1 <= i < o.len() && #[trigger] is_white_space(o[i]) ==> o[i] == ' ' && i + 1 < o.len()
                    && !is_white_space(o[i - 1]) && !is_white_space(o[i + 1])
        }),
    decreases s.len(),
{
    if s.len() > 0 {
        let rest = s.drop_first();
        if is_white_space(s[0]) {
            lemma_squeeze_spacing(rest, started, started);
        } else {
            lemma_squeeze_spacing(rest, false, true);
            let r = squeeze(rest, false, true);
            let o = squeeze(s, gap, started);
            if gap {
                assert(o == seq![' ', s[0]] + r);
                assert forall|i: int|
                    1 <= i < o.len() && #[trigger] is_white_space(o[i]) implies o[i] == ' ' && i + 1 < o.len()
                        && !is_white_space(o[i - 1]) && !is_white_space(o[i + 1]) by {
                    assert(o[i] == r[i - 2]);
                    assert(is_white_space(r[i - 2]));
                    assert(o[i + 1] == r[i - 1]);
                    if i > 2 {
                        assert(o[i - 1] == r[i - 3]);
                    }
                }
            } else {
                assert(o == seq![s[0]] + r);
                assert forall|i: int|
                    1 <= i < o.len() && #[trigger] is_white_space(o[i]) implies o[i] == ' ' && i + 1 < o.len()
                        && !is_white_space(o[i - 1]) && !is_white_space(o[i + 1]) by {
                    assert(o[i] == r[i - 1]);
                    assert(is_white_space(r[i - 1]));
                    assert(o[i + 1] == r[i]);
                    if i > 1 {
                        assert(o[i - 1] == r[i - 2]);
                    }
                }
            }
        }
    }
}

/// A normalized lyric line holds its words separated by single plain spaces,
/// with no white space at either end (a line with CJK text holds none at all).
pub proof fn normalized_line_is_single_spaced(s: Seq<char>)
    ensures
        single_spaced(normalized_line(s)),
        has_cjk(s.map_values(|c: char| spaced(c))) ==> forall|i: int|
            0 <= i < normalized_line(s).len() ==> !is_white_space(#[trigger] normalized_line(s)[i]),
{
    let r = s.map_values(|c: char| spaced(c));
    if has_cjk(r) {
        lemma_no_white_space(r);
    } else {
        lemma_squeeze_spacing(r, false, false);
        let o = squeeze(r, false, false);
        assert forall|i: int| 0 <= i < o.len() && #[trigger] is_white_space(o[i]) implies o[i] == ' ' && 0 < i
            && i + 1 < o.len() && !is_white_space(o[i - 1]) && !is_white_space(o[i + 1]) by {
            if i == 0 {
                assert(false);
            }
        }
    }
}


/// The characters of `s` that are not white space, in order.
pub open spec fn visible_chars(s: Seq<char>) -> Seq<char>
    decreases s.len(),
{
    if s.len() == 0 {
        Seq::empty()
    } else if is_white_space(s[0]) {
        visible_chars(s.drop_first())
    } else {
        seq![s[0]] + visible_chars(s.drop_first())
    }
}

/// Whether `s` holds a CJK character other than the ideographic space.
pub open spec fn has_cjk_text(s: Seq<char>) -> bool {
    exists|i: int| 0 <= i < s.len() && #[trigger] is_cjk(s[i]) && s[i] != '\u{3000}'
}

proof fn lemma_visible_concat(a: Seq<char>, b: Seq<char>)
    ensures
        visible_chars(a + b) == visible_chars(a) + visible_chars(b),
    decreases a.len(),
{
    if a.len() == 0 {
        assert(a + b =~= b);
    } else {
        assert((a + b).drop_first() =~= a.drop_first() + b);
        lemma_visible_concat(a.drop_first(), b);
        assert((a + b)[0] == a[0]);
        if !is_white_space(a[0]) {
            assert(seq![a[0]] + (visible_chars(a.drop_first()) + visible_chars(b)) =~= (seq![a[0]]
                + visible_chars(a.drop_first())) + visible_chars(b));
        }
    }
}

proof fn lemma_visible_single(c: char)
    ensures
        visible_chars(seq![c]) == if is_white_space(c) { Seq::<char>::empty() } else { seq![c] },
{
    assert(seq![c].drop_first() =~= Seq::<char>::empty());
    assert(visible_chars(seq![c].drop_first()) == Seq::<char>::empty());
    assert(seq![c][0] == c);
    if !is_white_space(c) {
        assert(seq![c] + Seq::<char>::empty() =~= seq![c]);
    }
}

proof fn lemma_cjk_not_white(c: char)
    requires
        is_cjk(c),
        c != '\u{3000}',
    ensures
        !is_white_space(c),
{
    assert(('\u{3000}' as u32) == 0x3000u32);
    assert((c as u32) != 0x3000u32);
}

proof fn lemma_visible_spaced(s: Seq<char>)
    ensures
        visible_chars(s.map_values(|c: char| spaced(c))) == visible_chars(s),
    decreases s.len(),
{
    if s.len() > 0 {
        let r = s.map_values(|c: char| spaced(c));
        assert(r.drop_first() =~= s.drop_first().map_values(|c: char| spaced(c)));
        lemma_visible_spaced(s.drop_first());
        assert(r[0] == spaced(s[0]));
    }
}

proof fn lemma_visible_without_white_space(s: Seq<char>)
    ensures
        visible_chars(without_white_space(s)) == visible_chars(s),
    decreases s.len(),
{
    if s.len() > 0 {
        lemma_visible_without_white_space(s.drop_last());
        assert(s =~= s.drop_last() + seq![s.last()]);
        lemma_visible_concat(s.drop_last(), seq![s.last()]);
        let w = without_white_space(s.drop_last());
        lemma_visible_concat(w, seq![s.last()]);
        assert(w.push(s.last()) =~= w + seq![s.last()]);
        lemma_visible_single(s.last());
    }
}

proof fn lemma_visible_squeeze(s: Seq<char>, gap: bool, started: bool)
    ensures
        visible_chars(squeeze(s, gap, started)) == visible_chars(s),
    decreases s.len(),
{
    if s.len() > 0 {
        let rest = s.drop_first();
        if is_white_space(s[0]) {
            lemma_visible_squeeze(rest, started, started);
        } else {
            lemma_visible_squeeze(rest, false, true);
            let r = squeeze(rest, false, true);
            if gap {
                lemma_visible_concat(seq![' ', s[0]], r);
                assert(seq![' ', s[0]] =~= seq![' '] + seq![s[0]]);
                lemma_visible_concat(seq![' '], seq![s[0]]);
                lemma_visible_single(' ');
                lemma_visible_single(s[0]);
            } else {
                lemma_visible_concat(seq![s[0]], r);
                lemma_visible_single(s[0]);
            }
        }
    }
}

proof fn lemma_single_spaced_skip(t: Seq<char>, k: int)
    requires
        single_spaced(t),
        0 <= k <= t.len(),
        k < t.len() ==> !is_white_space(t[k]),
    ensures
        single_spaced(t.skip(k)),
{
    let u = t.skip(k);
    assert forall|i: int| 0 <= i < u.len() && #[trigger] is_white_space(u[i]) implies u[i] == ' ' && 0 < i
        && i + 1 < u.len() && !is_white_space(u[i - 1]) && !is_white_space(u[i + 1]) by {
        assert(u[i] == t[k + i]);
        assert(is_white_space(t[k + i]));
        assert(u[i - 1] == t[k + i - 1]);
        assert(u[i + 1] == t[k + i + 1]);
    }
}

proof fn lemma_squeeze_keeps_single_spaced(t: Seq<char>, started: bool)
    requires
        single_spaced(t),
    ensures
        squeeze(t, false, started) == t,
    decreases t.len(),
{
    if t.len() > 0 {
        assert(!is_white_space(t[0]));
        let u = t.drop_first();
        if u.len() == 0 {
            assert(squeeze(u, false, true) =~= Seq::<char>::empty());
            assert(t =~= seq![t[0]]);
        } else if !is_white_space(u[0]) {
            assert(u == t.skip(1));
            lemma_single_spaced_skip(t, 1);
            lemma_squeeze_keeps_single_spaced(u, true);
            assert(t =~= seq![t[0]] + u);
        } else {
            assert(is_white_space(t[1]));
            assert(t[1] == ' ' && 2 < t.len() && !is_white_space(t[2]));
            let v = t.skip(2);
            lemma_single_spaced_skip(t, 2);
            lemma_squeeze_keeps_single_spaced(v, true);
            assert(u.drop_first() == v);
            assert(squeeze(u, false, true) == squeeze(v, true, true));
            assert(squeeze(v, true, true) == seq![' ', v[0]] + squeeze(v.drop_first(), false, true));
            assert(squeeze(v, false, true) == seq![v[0]] + squeeze(v.drop_first(), false, true));
            assert(squeeze(v, true, true) =~= seq![' '] + v);
            assert(t =~= seq![t[0]] + (seq![' '] + v));
        }
    }
}

proof fn lemma_cjk_text_spaced(s: Seq<char>)
    ensures
        has_cjk(s.map_values(|c: char| spaced(c))) == has_cjk_text(s),
{
    let r = s.map_values(|c: char| spaced(c));
    if has_cjk(r) {
        let i = choose|i: int| 0 <= i < r.len() && #[trigger] is_cjk(r[i]);
        assert(r[i] == spaced(s[i]));
        assert(is_cjk(s[i]) && s[i] != '\u{3000}');
    }
    if has_cjk_text(s) {
        let i = choose|i: int| 0 <= i < s.len() && #[trigger] is_cjk(s[i]) && s[i] != '\u{3000}';
        assert(r[i] == spaced(s[i]));
        assert(is_cjk(r[i]));
    }
}

/// Normalizing a lyric line keeps its visible characters, in order, drops all
/// white space from a line with CJK text, and leaves a normalized line as it is.
pub proof fn normalization_keeps_text_and_is_stable(s: Seq<char>)
    ensures
        visible_chars(normalized_line(s)) == visible_chars(s),
        has_cjk_text(s) ==> forall|i: int|
            0 <= i < normalized_line(s).len() ==> !is_white_space(#[trigger] normalized_line(s)[i]),
        normalized_line(normalized_line(s)) == normalized_line(s),
{
    let r = s.map_values(|c: char| spaced(c));
    let t = normalized_line(s);
    lemma_visible_spaced(s);
    lemma_cjk_text_spaced(s);
    normalized_line_is_single_spaced(s);
    if has_cjk(r) {
        lemma_visible_without_white_space(r);
    } else {
        lemma_visible_squeeze(r, false, false);
    }
    // a normalized line holds no character that the spacing step rewrites
    let r2 = t.map_values(|c: char| spaced(c));
    assert forall|i: int| 0 <= i < t.len() implies #[trigger] r2[i] == t[i] by {
        if is_white_space(t[i]) {
            assert(t[i] == ' ');
        } else {
            assert(t[i] != '\r' && t[i] != '\t' && t[i] != '\u{3000}' && t[i] != '\u{00A0}');
        }
    }
    assert(r2 =~= t);
    // it holds CJK text exactly when the line did
    lemma_visible_cjk(t, s);
    if has_cjk(r) {
        assert(has_cjk(r2));
        lemma_no_white_space(r);
        assert(without_white_space(t) == t) by {
            lemma_without_white_space_keeps(t);
        }
    } else {
        assert(!has_cjk(r2));
        lemma_squeeze_keeps_single_spaced(t, false);
    }
}

proof fn lemma_without_white_space_keeps(t: Seq<char>)
    requires
        forall|i: int| 0 <= i < t.len() ==> !is_white_space(#[trigger] t[i]),
    ensures
        without_white_space(t) == t,
    decreases t.len(),
{
    if t.len() > 0 {
        lemma_without_white_space_keeps(t.drop_last());
        assert(t.drop_last().push(t.last()) =~= t);
    }
}

proof fn lemma_cjk_in_visible(s: Seq<char>)
    ensures
        has_cjk_text(s) <==> exists|i: int| 0 <= i < visible_chars(s).len() && #[trigger] is_cjk(visible_chars(s)[i]),
    decreases s.len(),
{
    let v = visible_chars(s);
    if s.len() > 0 {
        let d = s.drop_first();
        lemma_cjk_in_visible(d);
        let vd = visible_chars(d);
        if has_cjk_text(s) {
            let i = choose|i: int| 0 <= i < s.len() && #[trigger] is_cjk(s[i]) && s[i] != '\u{3000}';
            lemma_cjk_not_white(s[i]);
            if i == 0 {
                assert(v[0] == s[0]);
            } else {
                assert(d[i - 1] == s[i]);
                assert(has_cjk_text(d));
                let j = choose|j: int| 0 <= j < vd.len() && #[trigger] is_cjk(vd[j]);
                if is_white_space(s[0]) {
                    assert(v[j] == vd[j]);
                } else {
                    assert(v[j + 1] == vd[j]);
                }
            }
        }
        if exists|i: int| 0 <= i < v.len() && #[trigger] is_cjk(v[i]) {
            let i = choose|i: int| 0 <= i < v.len() && #[trigger] is_cjk(v[i]);
            if is_white_space(s[0]) {
                assert(v == vd);
                let k = choose|k: int| 0 <= k < d.len() && #[trigger] is_cjk(d[k]) && d[k] != '\u{3000}';
                assert(s[k + 1] == d[k]);
            } else if i == 0 {
                assert(v[0] == s[0]);
                assert(s[0] != '\u{3000}');
            } else {
                assert(v[i] == vd[i - 1]);
                let k = choose|k: int| 0 <= k < d.len() && #[trigger] is_cjk(d[k]) && d[k] != '\u{3000}';
                assert(s[k + 1] == d[k]);
            }
        }
    }
}

proof fn lemma_visible_cjk(t: Seq<char>, s: Seq<char>)
    requires
        visible_chars(t) == visible_chars(s),
    ensures
        has_cjk_text(t) == has_cjk_text(s),
{
    lemma_cjk_in_visible(t);
    lemma_cjk_in_visible(s);
}


/// Whether code point `n` lies in the CJK blocks a lyric line is checked for:
/// U+2E80 to U+9FFF (radicals, kana, ideographs), U+AC00 to U+D7AF (Hangul),
/// U+F900 to U+FAFF (compatibility ideographs), U+FF00 to U+FFEF (half- and
/// full-width forms).
pub open spec fn in_cjk_blocks(n: u32) -> bool {
    (0x2E80 <= n && n <= 0x9FFF) || (0xAC00 <= n && n <= 0xD7AF) || (0xF900 <= n && n <= 0xFAFF)
        || (0xFF00 <= n && n <= 0xFFEF)
}

/// A line holding any character of the CJK blocks (kana and Hangul included)
/// other than the ideographic space normalizes to a line without any white
/// space, its other characters kept in order.
pub proof fn cjk_lines_lose_all_spaces(s: Seq<char>, k: int)
    requires
        0 <= k < s.len(),
        in_cjk_blocks(s[k] as u32),
        s[k] != '\u{3000}',
    ensures
        forall|i: int| 0 <= i < normalized_line(s).len() ==> !is_white_space(#[trigger] normalized_line(s)[i]),
        visible_chars(normalized_line(s)) == visible_chars(s),
{
    assert(is_cjk(s[k]));
    assert(has_cjk_text(s));
    normalization_keeps_text_and_is_stable(s);
}

/// Two words without white space and without characters of the CJK blocks,
/// separated by a run of white space, normalize to the two words joined by one
/// plain space.
pub proof fn words_keep_one_space(a: Seq<char>, gap: Seq<char>, b: Seq<char>)
    requires
        a.len() > 0,
        b.len() > 0,
        gap.len() > 0,
        forall|i: int| 0 <= i < a.len() ==> !is_white_space(#[trigger] a[i]) && !in_cjk_blocks(a[i] as u32),
        forall|i: int| 0 <= i < b.len() ==> !is_white_space(#[trigger] b[i]) && !in_cjk_blocks(b[i] as u32),
        forall|i: int| 0 <= i < gap.len() ==> is_white_space(#[trigger] gap[i]),
    ensures
        normalized_line(a + gap + b) == a + seq![' '] + b,
{
    let s = a + gap + b;
    let r = s.map_values(|c: char| spaced(c));
    assert(!has_cjk(r)) by {
        if has_cjk(r) {
            let i = choose|i: int| 0 <= i < r.len() && #[trigger] is_cjk(r[i]);
            assert(r[i] == spaced(s[i]));
            if i < a.len() {
                assert(s[i] == a[i]);
            } else if i < a.len() + gap.len() {
                assert(s[i] == gap[i - a.len()]);
            } else {
                assert(s[i] == b[i - a.len() - gap.len()]);
            }
        }
    }
    let g2 = gap.map_values(|c: char| spaced(c));
    assert(r =~= a + g2 + b) by {
        assert forall|i: int| 0 <= i < s.len() implies #[trigger] r[i] == (a + g2 + b)[i] by {
            if i < a.len() {
                assert(s[i] == a[i]);
                assert(a[i] != '\r' && a[i] != '\t' && a[i] != '\u{3000}' && a[i] != '\u{00A0}');
            } else if i < a.len() + gap.len() {
                assert(s[i] == gap[i - a.len()]);
            } else {
                let j = i - a.len() - gap.len();
                assert(s[i] == b[j]);
                assert(b[j] != '\r' && b[j] != '\t' && b[j] != '\u{3000}' && b[j] != '\u{00A0}');
            }
        }
    }
    assert forall|i: int| 0 <= i < g2.len() implies is_white_space(#[trigger] g2[i]) by {
        assert(g2[i] == spaced(gap[i]));
        assert(is_white_space(gap[i]));
    }
    lemma_squeeze_gap(a, g2, b);
}

proof fn lemma_squeeze_skips_white(w: Seq<char>, x: Seq<char>, gap: bool, started: bool)
    requires
        w.len() > 0,
        forall|i: int| 0 <= i < w.len() ==> is_white_space(#[trigger] w[i]),
    ensures
        squeeze(w + x, gap, started) == squeeze(x, started, started),
    decreases w.len(),
{
    assert((w + x)[0] == w[0]);
    assert((w + x).drop_first() =~= w.drop_first() + x);
    if w.len() == 1 {
        assert(w.drop_first() + x =~= x);
    } else {
        assert forall|i: int| 0 <= i < w.drop_first().len() implies is_white_space(#[trigger] w.drop_first()[i]) by {
            assert(w.drop_first()[i] == w[i + 1]);
        }
        lemma_squeeze_skips_white(w.drop_first(), x, started, started);
    }
}

proof fn lemma_squeeze_word(a: Seq<char>, y: Seq<char>, started: bool)
    requires
        a.len() > 0,
        forall|i: int| 0 <= i < a.len() ==> !is_white_space(#[trigger] a[i]),
    ensures
        squeeze(a + y, false, started) == a + squeeze(y, false, true),
    decreases a.len(),
{
    assert((a + y)[0] == a[0]);
    assert((a + y).drop_first() =~= a.drop_first() + y);
    if a.len() == 1 {
        assert(a.drop_first() + y =~= y);
        assert(seq![a[0]] =~= a);
    } else {
        assert forall|i: int| 0 <= i < a.drop_first().len() implies !is_white_space(#[trigger] a.drop_first()[i]) by {
            assert(a.drop_first()[i] == a[i + 1]);
        }
        lemma_squeeze_word(a.drop_first(), y, true);
        assert(seq![a[0]] + (a.drop_first() + squeeze(y, false, true)) =~= a + squeeze(y, false, true));
    }
}

proof fn lemma_squeeze_gap(a: Seq<char>, gap: Seq<char>, b: Seq<char>)
    requires
        a.len() > 0,
        b.len() > 0,
        gap.len() > 0,
        forall|i: int| 0 <= i < a.len() ==> !is_white_space(#[trigger] a[i]),
        forall|i: int| 0 <= i < b.len() ==> !is_white_space(#[trigger] b[i]),
        forall|i: int| 0 <= i < gap.len() ==> is_white_space(#[trigger] gap[i]),
    ensures
        squeeze(a + gap + b, false, false) == a + seq![' '] + b,
{
    assert(a + gap + b =~= a + (gap + b));
    lemma_squeeze_word(a, gap + b, false);
    lemma_squeeze_skips_white(gap, b, false, true);
    lemma_squeeze_word(b, Seq::<char>::empty(), true);
    assert(b + Seq::<char>::empty() =~= b);
    assert(squeeze(Seq::<char>::empty(), false, true) =~= Seq::<char>::empty());
    assert(b[0] == (b + Seq::<char>::empty())[0]);
    assert(squeeze(b, true, true) == seq![' ', b[0]] + squeeze(b.drop_first(), false, true));
    assert(squeeze(b, false, true) == seq![b[0]] + squeeze(b.drop_first(), false, true));
    assert(squeeze(b, true, true) =~= seq![' '] + b);
    assert(a + (seq![' '] + b) =~= a + seq![' '] + b);
}

} // verus!
