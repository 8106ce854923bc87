//! Run-length coding of grayscale pixel bytes: each run is written as its
//! length (two little-endian bytes, 1 to 65535) followed by the repeated byte.
use vstd::prelude::*;
use crate::wire::{from_le16, le16, lemma_le16_round_trip, push_le16};

verus! {

/// Longest run of `v` at the start of `s`, at most `cap` long.
pub open spec fn lead(s: Seq<u8>, v: u8, cap: nat) -> nat
    decreases s.len(),
{
    if s.len() == 0 || s[0] != v || cap == 0 {
        0
    } else {
        1 + lead(s.drop_first(), v, (cap - 1) as nat)
    }
}

/// The longest run allowed in one entry.
pub open spec fn max_run() -> nat {
    65535
}

/// Length of the first run of a non-empty `s`: as many copies of `s[0]` as stand
/// at its start, but no more than 65535.
pub open spec fn first_run(s: Seq<u8>) -> nat {
    lead(s, s[0], max_run())
}

pub proof fn lemma_lead_facts(s: Seq<u8>, v: u8, cap: nat)
    ensures
        lead(s, v, cap) <= s.len(),
        lead(s, v, cap) <= cap,
        s.len() > 0 && s[0] == v && cap > 0 ==> lead(s, v, cap) >= 1,
        forall|j: int| 0 <= j < lead(s, v, cap) ==> s[j] == v,
        lead(s, v, cap) < s.len() && lead(s, v, cap) < cap ==> s[lead(s, v, cap) as int] != v,
    decreases s.len(),
{
    if s.len() == 0 || s[0] != v || cap == 0 {
    } else {
        lemma_lead_facts(s.drop_first(), v, (cap - 1) as nat);
        let n = lead(s, v, cap);
        assert forall|j: int| 0 <= j < n implies s[j] == v by {
            if j > 0 {
                assert(s[j] == s.drop_first()[j - 1]);
            }
        }
        if n < s.len() && n < cap {
            assert(s[n as int] == s.drop_first()[n - 1]);
        }
    }
}

/// A run of `m` copies of `v` that ends at the end of `s`, before a different
/// byte, or at the cap, is exactly what `lead` measures.
proof fn lemma_lead_exact(s: Seq<u8>, v: u8, cap: nat, m: nat)
    requires
        m <= s.len(),
        m <= cap,
        forall|j: int| 0 <= j < m ==> s[j] == v,
        m == s.len() || s[m as int] != v || m == cap,
    ensures
        lead(s, v, cap) == m,
    decreases m,
{
    if m == 0 {
    } else {
        let t = s.drop_first();
        assert forall|j: int| 0 <= j < m - 1 implies t[j] == v by {
            assert(t[j] == s[j + 1]);
        }
        if m < s.len() {
            assert(t[m - 1] == s[m as int]);
        }
        lemma_lead_exact(t, v, (cap - 1) as nat, (m - 1) as nat);
    }
}

/// The coding of `s`: its first run, then the coding of what follows it.
pub open spec fn rle_encode(s: Seq<u8>) -> Seq<u8>
    decreases s.len(),
{
    if s.len() == 0 {
        Seq::empty()
    } else {
        let n = first_run(s);
        proof {
            lemma_lead_facts(s, s[0], max_run());
        }
        le16(n as u16) + seq![s[0]] + rle_encode(s.skip(n as int))
    }
}

/// The bytes that a coding stands for: each complete 3-byte entry expands to its
/// byte repeated as often as its length says; an incomplete tail is ignored.
pub open spec fn rle_decode(e: Seq<u8>) -> Seq<u8>
    decreases e.len(),
{
    if e.len() < 3 {
        Seq::empty()
    } else {
        Seq::new(from_le16(e[0], e[1]) as nat, |i: int| e[2]) + rle_decode(e.skip(3))
    }
}

/// Length of entry `k` of a coding.
pub open spec fn run_len(e: Seq<u8>, k: int) -> int {
    from_le16(e[3 * k], e[3 * k + 1])
}

/// Byte of entry `k` of a coding.
pub open spec fn run_value(e: Seq<u8>, k: int) -> u8 {
    e[3 * k + 2]
}

/// `e` is a well-formed coding of `s`: whole 3-byte entries, no empty run,
/// two neighbouring runs of the same byte only where the first is full, and
/// decoding gives back `s`.
pub open spec fn is_rle_encoding(e: Seq<u8>, s: Seq<u8>) -> bool {
    &&& e.len() % 3 == 0
    &&& forall|k: int| 0 <= k < e.len() / 3 ==> #[trigger] run_len(e, k) >= 1
    &&& forall|k: int|
        0 < k < e.len() / 3 && run_value(e, k - 1) == #[trigger] run_value(e, k) ==> run_len(
            e,
            k - 1,
        ) == max_run()
    &&& rle_decode(e) == s
}

proof fn lemma_first_entry(s: Seq<u8>)
    requires
        s.len() > 0,
    ensures
        ({
            let n = first_run(s);
            let e = rle_encode(s);
            &&& 1 <= n <= s.len()
            &&& n <= max_run()
            &&& e.len() >= 3
            &&& from_le16(e[0], e[1]) == n
            &&& e[2] == s[0]
            &&& e.skip(3) == rle_encode(s.skip(n as int))
            &&& forall|j: int| 0 <= j < n ==> #[trigger] s[j] == s[0]
            &&& n < s.len() && n < max_run() ==> s[n as int] != s[0]
        }),
{
    let n = first_run(s);
    lemma_lead_facts(s, s[0], max_run());
    lemma_le16_round_trip(n as u16);
    let e = rle_encode(s);
    assert(e == le16(n as u16) + seq![s[0]] + rle_encode(s.skip(n as int)));
    assert(e.skip(3) =~= rle_encode(s.skip(n as int)));
}

/// Decoding the coding of `s` gives `s` back, and the coding is well formed.
pub proof fn lemma_rle_encoding(s: Seq<u8>)
    ensures
        is_rle_encoding(rle_encode(s), s),
        rle_encode(s).len() <= 3 * s.len(),
    decreases s.len(),
{
    let e = rle_encode(s);
    if s.len() == 0 {
        assert(rle_decode(e) =~= s);
    } else {
        let n = first_run(s);
        lemma_first_entry(s);
        let rest = s.skip(n as int);
        lemma_rle_encoding(rest);
        let er = rle_encode(rest);
        assert(e.skip(3) == er);
        assert(e =~= e.take(3) + er);
        assert(e.len() == er.len() + 3);
        // decoding
        assert(rle_decode(e) == Seq::new(n, |i: int| s[0]) + rle_decode(er));
        assert(Seq::new(n, |i: int| s[0]) =~= s.take(n as int));
        assert(s =~= s.take(n as int) + rest);
        // entries of e are the first entry, then the entries of er
        assert forall|k: int| 0 < k < e.len() / 3 implies run_len(e, k) == run_len(er, k - 1)
            && run_value(e, k) == run_value(er, k - 1) by {
            assert(e[3 * k] == er[3 * (k - 1)]);
            assert(e[3 * k + 1] == er[3 * (k - 1) + 1]);
            assert(e[3 * k + 2] == er[3 * (k - 1) + 2]);
        }
        assert forall|k: int| 0 <= k < e.len() / 3 implies #[trigger] run_len(e, k) >= 1 by {
            if k > 0 {
                assert(run_len(er, k - 1) >= 1);
            }
        }
        assert forall|k: int|
            0 < k < e.len() / 3 && run_value(e, k - 1) == #[trigger] run_value(e, k) implies run_len(
            e,
            k - 1,
        ) == max_run() by {
            if k == 1 {
                // the second entry starts the coding of `rest`, whose first byte is s[n]
                lemma_first_entry(rest);
                assert(run_value(er, 0) == rest[0]);
                assert(rest[0] == s[n as int]);
            } else {
                assert(run_value(er, k - 2) == run_value(er, k - 1));
            }
        }
    }
}

/// Decoding the coding of any byte sequence gives it back.
pub proof fn rle_round_trip(s: Seq<u8>)
    ensures
        rle_decode(rle_encode(s)) == s,
{
    lemma_rle_encoding(s);
}

/// Run-length codes grayscale pixels.
pub fn encode_rle_grayscale(pixels: &[u8]) -> (encoded: Vec<u8>)
    ensures
        encoded@ == rle_encode(pixels@),
        is_rle_encoding(encoded@, pixels@),
{
    proof {
        lemma_rle_encoding(pixels@);
    }
    let mut encoded: Vec<u8> = Vec::new();
    if pixels.len() == 0 {
        return encoded;
    }
    let ghost s = pixels@;
    let mut run_value: u8 = pixels[0];
    let mut run_len: u16 = 1;
    let mut i: usize = 1;
    assert(s.skip(0) =~= s);
    while i < pixels.len()
        invariant
            s == pixels@,
            1 <= run_len,
            run_len <= i <= s.len(),
            forall|j: int| i - run_len <= j < i ==> s[j] == run_value,
            rle_encode(s) == encoded@ + rle_encode(s.skip(i - run_len)),
        decreases s.len() - i,
    {
        let pixel = pixels[i];
        if pixel == run_value && run_len < 65535 {
            run_len = run_len + 1;
        } else {
            let ghost start = i - run_len;
            proof {
                let t = s.skip(start);
                assert forall|j: int| 0 <= j < run_len implies t[j] == run_value by {
                    assert(t[j] == s[start + j]);
                }
                assert(t[run_len as int] == s[i as int]);
                lemma_lead_exact(t, run_value, max_run(), run_len as nat);
                assert(t[0] == run_value);
                assert(t.skip(run_len as int) =~= s.skip(i as int));
                assert(rle_encode(t) == le16(run_len) + seq![run_value] + rle_encode(s.skip(i as int)));
            }
            push_le16(&mut encoded, run_len);
            encoded.push(run_value);
            run_value = pixel;
            run_len = 1;
        }
        i = i + 1;
    }
    proof {
        let start = i - run_len;
        let t = s.skip(start);
        assert forall|j: int| 0 <= j < run_len implies t[j] == run_value by {
            assert(t[j] == s[start + j]);
        }
        lemma_lead_exact(t, run_value, max_run(), run_len as nat);
        assert(t[0] == run_value);
        assert(t.skip(run_len as int) =~= Seq::<u8>::empty());
        assert(rle_encode(t) == le16(run_len) + seq![run_value] + rle_encode(Seq::<u8>::empty()));
        assert(rle_encode(t) =~= le16(run_len) + seq![run_value]);
    }
    push_le16(&mut encoded, run_len);
    encoded.push(run_value);
    assert(rle_encode(s) == encoded@);
    encoded
}

} // verus!
