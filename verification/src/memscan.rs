//! Finding a lyric in another process's memory: the UTF-16LE byte patterns to
//! look for, where a pattern occurs in a block of memory, the text a block of
//! memory holds, and the tracker that narrows the candidate addresses down as
//! the user's lyrics play one after another.
use vstd::prelude::*;
use crate::text::{str_chars, string_from_chars};
use crate::lyrics::{trim, trim_chars};

verus! {

/// Whether `pat` occurs in `buf` at offset `i`.
pub open spec fn occurs_at(buf: Seq<u8>, pat: Seq<u8>, i: int) -> bool {
    0 <= i && i + pat.len() <= buf.len() && buf.subrange(i, i + pat.len()) == pat
}

/// The offsets below `k` at which `pat` occurs in `buf`, in increasing order.
pub open spec fn occurrences_below(buf: Seq<u8>, pat: Seq<u8>, k: int) -> Seq<usize>
    decreases k,
{
    if k <= 0 {
        Seq::empty()
    } else if occurs_at(buf, pat, k - 1) {
        occurrences_below(buf, pat, k - 1).push((k - 1) as usize)
    } else {
        occurrences_below(buf, pat, k - 1)
    }
}

/// Every offset at which a non-empty `pat` occurs in `buf`, in increasing order
/// (none for an empty pattern).
pub open spec fn occurrences(buf: Seq<u8>, pat: Seq<u8>) -> Seq<usize> {
    if pat.len() == 0 || buf.len() < pat.len() {
        Seq::empty()
    } else {
        occurrences_below(buf, pat, buf.len() - pat.len() + 1)
    }
}

/// Finds every offset at which `pattern` occurs in `buffer`.
pub fn find_pattern_offsets(buffer: &[u8], pattern: &[u8]) -> (offsets: Vec<usize>)
    ensures
        offsets@ == occurrences(buffer@, pattern@),
{
    let mut offsets: Vec<usize> = Vec::new();
    let t_len = pattern.len();
    if t_len == 0 || buffer.len() < t_len {
        return offsets;
    }
    let last = buffer.len() - t_len;
    let blen = buffer.len();
    let mut i: usize = 0;
    while i <= last
        invariant
            blen == buffer@.len(),
            t_len == pattern@.len(),
            t_len > 0,
            last == buffer@.len() - t_len,
            i <= last + 1,
            offsets@ == occurrences_below(buffer@, pattern@, i as int),
        decreases last + 1 - i,
    {
        let mut j: usize = 0;
        while j < t_len && buffer[i + j] == pattern[j]
            invariant
                blen == buffer@.len(),
                t_len == pattern@.len(),
                i <= last,
                last == buffer@.len() - t_len,
                j <= t_len,
                forall|q: int| 0 <= q < j ==> buffer@[i + q] == pattern@[q],
            decreases t_len - j,
        {
            j = j + 1;
        }
        if j == t_len {
            assert(buffer@.subrange(i as int, i + t_len) =~= pattern@);
            offsets.push(i);
        } else {
            assert(buffer@.subrange(i as int, i + t_len)[j as int] != pattern@[j as int]);
        }
        i = i + 1;
    }
    offsets
}

/// The UTF-16 code units of a character.
pub open spec fn utf16_units(c: char) -> Seq<u16> {
    let n = c as u32;
    if n < 0x10000 {
        seq![n as u16]
    } else {
        let v = n - 0x10000;
        seq![(0xD800 + v / 1024) as u16, (0xDC00 + v % 1024) as u16]
    }
}

/// The UTF-16 code units of a text.
pub open spec fn utf16_encode(s: Seq<char>) -> Seq<u16>
    decreases s.len(),
{
    if s.len() == 0 {
        Seq::empty()
    } else {
        utf16_encode(s.drop_last()) + utf16_units(s.last())
    }
}

/// The little-endian bytes of a sequence of code units.
pub open spec fn units_le_bytes(u: Seq<u16>) -> Seq<u8>
    decreases u.len(),
{
    if u.len() == 0 {
        Seq::empty()
    } else {
        units_le_bytes(u.drop_last()) + seq![(u.last() & 0xff) as u8, (u.last() >> 8) as u8]
    }
}

/// The UTF-16LE bytes of a text as a program holds it in memory.
pub fn utf16le_bytes(chars: &Vec<char>) -> (bytes: Vec<u8>)
    ensures
        bytes@ == units_le_bytes(utf16_encode(chars@)),
{
    let mut bytes: Vec<u8> = Vec::new();
    let ghost mut units: Seq<u16> = Seq::empty();
    let mut i: usize = 0;
    while i < chars.len()
        invariant
            i <= chars@.len(),
            units == utf16_encode(chars@.take(i as int)),
            bytes@ == units_le_bytes(units),
        decreases chars@.len() - i,
    {
        let c = chars[i];
        let n = c as u32;
        proof {
            vstd::utf8::char_is_scalar(c);
        }
        assert(n <= 0x10FFFF);
        assert(chars@.take(i + 1).drop_last() == chars@.take(i as int));
        if n < 0x10000 {
            let u = n as u16;
            bytes.push((u & 0xff) as u8);
            bytes.push((u >> 8) as u8);
            proof {
                let old_units = units;
                units = units.push(u);
                assert(units.drop_last() == old_units);
                assert(units =~= old_units + utf16_units(c));
                assert(bytes@ =~= units_le_bytes(units));
            }
        } else {
            let v = n - 0x10000;
            assert(v < 0x100000);
            let hi = (0xD800 + v / 1024) as u16;
            let lo = (0xDC00 + v % 1024) as u16;
            bytes.push((hi & 0xff) as u8);
            bytes.push((hi >> 8) as u8);
            bytes.push((lo & 0xff) as u8);
            bytes.push((lo >> 8) as u8);
            proof {
                let old_units = units;
                let mid = units.push(hi);
                units = mid.push(lo);
                assert(units.drop_last() == mid);
                assert(mid.drop_last() == old_units);
                assert(units =~= old_units + utf16_units(c));
                assert(units_le_bytes(mid) =~= units_le_bytes(old_units) + seq![(hi & 0xff) as u8, (hi >> 8) as u8]);
                assert(bytes@ =~= units_le_bytes(units));
            }
        }
        i = i + 1;
    }
    assert(chars@.take(i as int) == chars@);
    bytes
}

/// Whether a text holds a plain space.
pub open spec fn has_space(s: Seq<char>) -> bool {
    exists|i: int| 0 <= i < s.len() && s[i] == ' '
}

/// The byte patterns to search memory for a lyric: its UTF-16LE form, and, if
/// it holds spaces, also the form with each space written as an ideographic space.
pub open spec fn search_patterns(s: Seq<char>) -> Seq<Seq<u8>> {
    let plain = units_le_bytes(utf16_encode(s));
    if has_space(s) {
        seq![
            plain,
            units_le_bytes(utf16_encode(s.map_values(|c: char| if c == ' ' { '\u{3000}' } else { c }))),
        ]
    } else {
        seq![plain]
    }
}

/// The byte patterns to search memory for the lyric `target`.
pub fn search_targets(target: &str) -> (patterns: Vec<Vec<u8>>)
    ensures
        patterns@.len() == search_patterns(target@).len(),
        forall|k: int| 0 <= k < patterns@.len() ==> (#[trigger] patterns@[k])@ == search_patterns(target@)[k],
{
    let chars = str_chars(target);
    let mut patterns: Vec<Vec<u8>> = Vec::new();
    patterns.push(utf16le_bytes(&chars));
    let mut spaced: Vec<char> = Vec::new();
    let mut any = false;
    let mut i: usize = 0;
    while i < chars.len()
        invariant
            chars@ == target@,
            i <= chars@.len(),
            spaced@ == chars@.take(i as int).map_values(|c: char| if c == ' ' { '\u{3000}' } else { c }),
            any == exists|j: int| 0 <= j < i && chars@[j] == ' ',
        decreases chars@.len() - i,
    {
        let c = chars[i];
        let ghost old_i = i;
        if c == ' ' {
            spaced.push('\u{3000}');
            any = true;
        } else {
            spaced.push(c);
        }
        i = i + 1;
        assert(spaced@ =~= chars@.take(i as int).map_values(|c: char| if c == ' ' { '\u{3000}' } else { c }));
        assert(any == exists|j: int| 0 <= j < i && chars@[j] == ' ') by {
            if c == ' ' {
                assert(chars@[old_i as int] == ' ');
            }
        }
    }
    assert(chars@.take(i as int) == chars@);
    if any {
        patterns.push(utf16le_bytes(&spaced));
    }
    patterns
}

/// The code units of a block of memory, read two bytes at a time (little
/// endian), up to the first zero unit or the last whole pair.
pub open spec fn units_until_nul(b: Seq<u8>) -> Seq<u16>
    decreases b.len(),
{
    if b.len() < 2 {
        Seq::empty()
    } else {
        let v = (b[0] + 256 * b[1]) as u16;
        if v == 0 {
            Seq::empty()
        } else {
            seq![v] + units_until_nul(b.skip(2))
        }
    }
}

/// Reads the code units of a block of memory up to the first zero unit.
pub fn utf16_units_until_nul(bytes: &[u8]) -> (units: Vec<u16>)
    ensures
        units@ == units_until_nul(bytes@),
{
    let mut units: Vec<u16> = Vec::new();
    let mut i: usize = 0;
    assert(bytes@.skip(0) =~= bytes@);
    while i < bytes.len() && bytes.len() - i >= 2
        invariant
            i <= bytes@.len(),
            units@ + units_until_nul(bytes@.skip(i as int)) == units_until_nul(bytes@),
        decreases bytes@.len() - i,
    {
        let v: u16 = bytes[i] as u16 + 256 * (bytes[i + 1] as u16);
        assert(bytes@.skip(i as int)[0] == bytes@[i as int]);
        assert(bytes@.skip(i as int)[1] == bytes@[i + 1]);
        if v == 0 {
            assert(units@ =~= units_until_nul(bytes@));
            return units;
        }
        assert(bytes@.skip(i as int).skip(2) =~= bytes@.skip(i + 2));
        units.push(v);
        i = i + 2;
        assert(units@.drop_last() + seq![v] =~= units@);
    }
    assert(units@ =~= units_until_nul(bytes@));
    units
}

/// Text of UTF-16 code units, each unpaired surrogate read as U+FFFD (as
/// `String::from_utf16_lossy` reads them).
pub open spec fn utf16_decode_lossy(u: Seq<u16>) -> Seq<char>
    decreases u.len(),
{
    if u.len() == 0 {
        Seq::empty()
    } else {
        let a = u[0];
        if 0xD800 <= a < 0xDC00 && u.len() >= 2 && 0xDC00 <= u[1] < 0xE000 {
            seq![(0x10000 + (a - 0xD800) * 1024 + (u[1] - 0xDC00)) as char] + utf16_decode_lossy(
                u.skip(2),
            )
        } else if 0xD800 <= a < 0xE000 {
            seq!['\u{FFFD}'] + utf16_decode_lossy(u.skip(1))
        } else {
            seq![a as char] + utf16_decode_lossy(u.skip(1))
        }
    }
}

/// The character with scalar value `v` (std's `char::from_u32`, which gives it
/// for every Unicode scalar value).
#[verifier::external_body]
fn char_from_scalar(v: u32) -> (c: char)
    requires
        v < 0xD800 || (0xE000 <= v <= 0x10FFFF),
    ensures
        c == v as char,
{
    char::from_u32(v).unwrap()
}

/// Decodes UTF-16 code units, reading each unpaired surrogate as U+FFFD.
pub fn decode_utf16_lossy(units: &Vec<u16>) -> (chars: Vec<char>)
    ensures
        chars@ == utf16_decode_lossy(units@),
{
    let mut chars: Vec<char> = Vec::new();
    let mut i: usize = 0;
    assert(units@.skip(0) =~= units@);
    while i < units.len()
        invariant
            i <= units@.len(),
            chars@ + utf16_decode_lossy(units@.skip(i as int)) == utf16_decode_lossy(units@),
        decreases units@.len() - i,
    {
        let a = units[i];
        let ghost rest = units@.skip(i as int);
        assert(rest[0] == a);
        if 0xD800 <= a && a < 0xDC00 && i + 1 < units.len() && 0xDC00 <= units[i + 1] && units[i + 1] < 0xE000 {
            let b = units[i + 1];
            assert(rest[1] == b);
            let v: u32 = 0x10000 + (a as u32 - 0xD800) * 1024 + (b as u32 - 0xDC00);
            let c = char_from_scalar(v);
            assert(rest.skip(2) =~= units@.skip(i + 2));
            chars.push(c);
            i = i + 2;
            assert(chars@.drop_last() + seq![c] =~= chars@);
        } else {
            let c = if 0xD800 <= a && a < 0xE000 {
                '\u{FFFD}'
            } else {
                char_from_scalar(a as u32)
            };
            assert(rest.skip(1) =~= units@.skip(i + 1));
            chars.push(c);
            i = i + 1;
            assert(chars@.drop_last() + seq![c] =~= chars@);
        }
    }
    assert(units@.skip(i as int) =~= Seq::<u16>::empty());
    assert(chars@ =~= utf16_decode_lossy(units@));
    chars
}

/// The lyric text a block of memory holds: its code units up to the first zero
/// unit, decoded, ideographic spaces read as plain spaces, then trimmed.
pub open spec fn memory_text(b: Seq<u8>) -> Seq<char> {
    trim(utf16_decode_lossy(units_until_nul(b)).map_values(|c: char| if c == '\u{3000}' { ' ' } else { c }))
}

/// Reads the lyric text and the code units a block of memory holds.
pub fn decode_memory_string(bytes: &[u8]) -> (r: (String, Vec<u16>))
    ensures
        r.0@ == memory_text(bytes@),
        r.1@ == units_until_nul(bytes@),
{
    let units = utf16_units_until_nul(bytes);
    let decoded = decode_utf16_lossy(&units);
    let mut spaced: Vec<char> = Vec::new();
    let mut i: usize = 0;
    while i < decoded.len()
        invariant
            i <= decoded@.len(),
            spaced@ == decoded@.take(i as int).map_values(|c: char| if c == '\u{3000}' { ' ' } else { c }),
        decreases decoded@.len() - i,
    {
        let c = decoded[i];
        spaced.push(if c == '\u{3000}' { ' ' } else { c });
        i = i + 1;
        assert(spaced@ =~= decoded@.take(i as int).map_values(|c: char| if c == '\u{3000}' { ' ' } else { c }));
    }
    assert(decoded@.take(i as int) == decoded@);
    let trimmed = trim_chars(&spaced);
    (string_from_chars(&trimmed), units)
}


/// The candidates whose reading is exactly `target`, in order. A reading is a
/// location (process handle, address) with the text read there, if any.
pub open spec fn matching(readings: Seq<((usize, usize), Option<String>)>, target: Seq<char>) -> Seq<(usize, usize)>
    decreases readings.len(),
{
    if readings.len() == 0 {
        Seq::empty()
    } else {
        let rest = matching(readings.drop_last(), target);
        match readings.last().1 {
            Some(t) => if t@ == target {
                rest.push(readings.last().0)
            } else {
                rest
            },
            None => rest,
        }
    }
}

/// Keeps the locations whose reading is exactly `target`, in order.
pub fn matching_locations(readings: &Vec<((usize, usize), Option<String>)>, target: &String) -> (out: Vec<(usize, usize)>)
    ensures
        out@ == matching(readings@, target@),
{
    let mut out: Vec<(usize, usize)> = Vec::new();
    let mut i: usize = 0;
    while i < readings.len()
        invariant
            i <= readings@.len(),
            out@ == matching(readings@.take(i as int), target@),
        decreases readings@.len() - i,
    {
        assert(readings@.take(i + 1).drop_last() == readings@.take(i as int));
        let (loc, text) = &readings[i];
        match text {
            Some(t) => {
                if *t == *target {
                    out.push(*loc);
                }
            },
            None => {},
        }
        i = i + 1;
    }
    assert(readings@.take(i as int) == readings@);
    out
}

/// Every location the tracker keeps was among the readings and read exactly as
/// the awaited lyric there.
pub proof fn kept_locations_read_as_lyric(readings: Seq<((usize, usize), Option<String>)>, target: Seq<char>, k: int)
    requires
        0 <= k < matching(readings, target).len(),
    ensures
        exists|j: int|
            0 <= j < readings.len() && (#[trigger] readings[j]).0 == matching(readings, target)[k]
                && (readings[j].1 matches Some(t) && t@ == target),
    decreases readings.len(),
{
    let rest = matching(readings.drop_last(), target);
    let j = readings.len() - 1;
    if k < rest.len() {
        kept_locations_read_as_lyric(readings.drop_last(), target, k);
        let i = choose|i: int|
            0 <= i < readings.drop_last().len() && (#[trigger] readings.drop_last()[i]).0 == rest[k]
                && (readings.drop_last()[i].1 matches Some(t) && t@ == target);
        assert(readings[i] == readings.drop_last()[i]);
    } else {
        assert(readings[j].0 == matching(readings, target)[k]);
    }
}

/// Whether a reading is the text `target`.
pub open spec fn reads_as(reading: ((usize, usize), Option<String>), target: Seq<char>) -> bool {
    reading.1 matches Some(t) && t@ == target
}

/// The tracker keeps exactly the readings that are the awaited lyric: the
/// locations of all of them, each once, in the order read, and no other.
pub proof fn kept_locations_are_all_matches(readings: Seq<((usize, usize), Option<String>)>, target: Seq<char>)
    ensures
        matching(readings, target) == readings.filter(|r: ((usize, usize), Option<String>)| reads_as(r, target)).map_values(
            |r: ((usize, usize), Option<String>)| r.0,
        ),
        forall|j: int|
            0 <= j < readings.len() && reads_as(#[trigger] readings[j], target) ==> matching(readings, target).contains(
                readings[j].0,
            ),
    decreases readings.len(),
{
    let pred = |r: ((usize, usize), Option<String>)| reads_as(r, target);
    let fst = |r: ((usize, usize), Option<String>)| r.0;
    if readings.len() > 0 {
        kept_locations_are_all_matches(readings.drop_last(), target);
        let sub = readings.drop_last().filter(pred);
        reveal(Seq::filter);
        assert(readings.filter(pred) == if pred(readings.last()) { sub.push(readings.last()) } else { sub });
        if pred(readings.last()) {
            assert(sub.push(readings.last()).map_values(fst) =~= sub.map_values(fst).push(readings.last().0));
        }
    } else {
        reveal(Seq::filter);
        assert(readings.filter(pred).map_values(fst) =~= Seq::<(usize, usize)>::empty());
    }
    let m = matching(readings, target);
    assert forall|j: int| 0 <= j < readings.len() && reads_as(#[trigger] readings[j], target) implies m.contains(
        readings[j].0,
    ) by {
        readings.lemma_filter_contains(pred, j);
        let f = readings.filter(pred);
        let k = choose|k: int| 0 <= k < f.len() && f[k] == readings[j];
        assert(f.map_values(fst)[k] == readings[j].0);
    }
}

/// What the memory tracker asks for next.
#[derive(Clone, Copy, PartialEq, Eq, Debug, Structural)]
pub enum TrackAction {
    /// Scan the whole memory of each process for the awaited lyric.
    Scan,
    /// Read the candidate locations again.
    Reread,
    /// Every lyric was matched: keep reading the candidates for the lyric playing.
    Listen,
}

/// State of the search for the memory that holds the lyric being played: the
/// locations still followed, the index of the lyric awaited next, and whether
/// the next step is a full scan.
pub struct MemoryTracker {
    pub candidates: Vec<(usize, usize)>,
    pub next_lyric: usize,
    pub scanning: bool,
}

/// What the tracker asks for with `lyric_count` lyrics to match.
pub open spec fn track_action(next_lyric: usize, scanning: bool, lyric_count: nat) -> TrackAction {
    if next_lyric >= lyric_count {
        TrackAction::Listen
    } else if scanning {
        TrackAction::Scan
    } else {
        TrackAction::Reread
    }
}

impl MemoryTracker {
    /// A tracker that starts with a full scan for the first lyric.
    pub fn new() -> (t: MemoryTracker)
        ensures
            t.candidates@ == Seq::<(usize, usize)>::empty(),
            t.next_lyric == 0,
            t.scanning,
    {
        MemoryTracker { candidates: Vec::new(), next_lyric: 0, scanning: true }
    }

    /// What to do next, with `lyric_count` lyrics to match.
    pub fn action(&self, lyric_count: usize) -> (a: TrackAction)
        ensures
            a == track_action(self.next_lyric, self.scanning, lyric_count as nat),
    {
        if self.next_lyric >= lyric_count {
            TrackAction::Listen
        } else if self.scanning {
            TrackAction::Scan
        } else {
            TrackAction::Reread
        }
    }

    /// Takes the result of a full scan for the awaited lyric: the locations where
    /// its text was found, each with the text read back there. Those that read
    /// exactly as the lyric become candidates; if there are any, the tracker
    /// awaits the next lyric and follows them. Returns whether it moved on.
    pub fn after_scan(&mut self, lyrics: &Vec<String>, found: &Vec<((usize, usize), Option<String>)>) -> (moved: bool)
        requires
            old(self).scanning,
            old(self).next_lyric < lyrics@.len(),
        ensures
            final(self).candidates@ == old(self).candidates@ + matching(found@, lyrics@[old(self).next_lyric as int]@),
            moved == (final(self).candidates@.len() > 0),
            moved ==> final(self).next_lyric == old(self).next_lyric + 1 && !final(self).scanning,
            !moved ==> final(self).next_lyric == old(self).next_lyric && final(self).scanning,
    {
        let n = lyrics.len();
        let matched = matching_locations(found, &lyrics[self.next_lyric]);
        let mut i: usize = 0;
        let ghost start = self.candidates@;
        while i < matched.len()
            invariant
                i <= matched@.len(),
                self.candidates@ == start + matched@.take(i as int),
                self.next_lyric == old(self).next_lyric,
                self.next_lyric < n,
                self.scanning == old(self).scanning,
            decreases matched@.len() - i,
        {
            self.candidates.push(matched[i]);
            i = i + 1;
            assert(matched@.take(i as int) == matched@.take(i - 1).push(matched@[i - 1]));
        }
        assert(matched@.take(i as int) == matched@);
        if self.candidates.len() > 0 {
            self.next_lyric = self.next_lyric + 1;
            self.scanning = false;
            true
        } else {
            false
        }
    }

    /// Takes the texts read again at the candidate locations while awaiting a
    /// lyric, and whether the wait for it has run out. When some read exactly as
    /// the awaited lyric, the tracker follows only those and awaits the next one
    /// (returns true). Otherwise it keeps waiting, unless the wait ran out or no
    /// candidate is left: then it starts over with a full scan for the first lyric.
    pub fn after_reread(
        &mut self,
        lyrics: &Vec<String>,
        readings: &Vec<((usize, usize), Option<String>)>,
        timed_out: bool,
    ) -> (moved: bool)
        requires
            !old(self).scanning,
            old(self).next_lyric < lyrics@.len(),
        ensures
            ({
                let m = matching(readings@, lyrics@[old(self).next_lyric as int]@);
                if m.len() > 0 {
                    &&& moved
                    &&& final(self).candidates@ == m
                    &&& final(self).next_lyric == old(self).next_lyric + 1
                    &&& !final(self).scanning
                } else if timed_out || old(self).candidates@.len() == 0 {
                    &&& !moved
                    &&& final(self).candidates@ == if timed_out {
                        Seq::<(usize, usize)>::empty()
                    } else {
                        old(self).candidates@
                    }
                    &&& final(self).next_lyric == 0
                    &&& final(self).scanning
                } else {
                    &&& !moved
                    &&& final(self).candidates@ == old(self).candidates@
                    &&& final(self).next_lyric == old(self).next_lyric
                    &&& !final(self).scanning
                }
            }),
    {
        let n = lyrics.len();
        let matched = matching_locations(readings, &lyrics[self.next_lyric]);
        if matched.len() > 0 {
            self.candidates = matched;
            self.next_lyric = self.next_lyric + 1;
            return true;
        } else if timed_out {
            self.candidates = Vec::new();
            self.next_lyric = 0;
            self.scanning = true;
            return false;
        }
        if self.candidates.len() == 0 {
            self.next_lyric = 0;
            self.scanning = true;
        }
        false
    }
}

/// The lyric newly caught while listening: the first text read that is not
/// empty and differs from the last one caught.
pub open spec fn caught(texts: Seq<String>, last: Seq<char>) -> Option<Seq<char>>
    decreases texts.len(),
{
    if texts.len() == 0 {
        None
    } else if texts[0]@.len() > 0 && texts[0]@ != last {
        Some(texts[0]@)
    } else {
        caught(texts.drop_first(), last)
    }
}

/// Picks the lyric newly caught among the texts read at the candidates (see `caught`).
pub fn next_caught_lyric(texts: &Vec<String>, last: &String) -> (found: Option<String>)
    ensures
        match found {
            Some(t) => caught(texts@, last@) == Some(t@),
            None => caught(texts@, last@) is None,
        },
{
    let mut i: usize = 0;
    assert(texts@.skip(0) =~= texts@);
    while i < texts.len()
        invariant
            i <= texts@.len(),
            caught(texts@, last@) == caught(texts@.skip(i as int), last@),
        decreases texts@.len() - i,
    {
        assert(texts@.skip(i as int).drop_first() == texts@.skip(i + 1));
        assert(texts@.skip(i as int)[0] == texts@[i as int]);
        if texts[i].unicode_len() > 0 && !(texts[i] == *last) {
            return Some(texts[i].clone());
        }
        i = i + 1;
    }
    None
}

} // verus!
