//! Text normalization and tokenization, shared by indexing and querying: a
//! token is a maximal run of ASCII letters and digits, case-folded to
//! lowercase; every other byte separates tokens.

use vstd::prelude::*;

verus! {

/// Whether `b` is a token byte: an ASCII letter or digit.
pub open spec fn is_word_byte(b: u8) -> bool {
    (0x30 <= b && b <= 0x39) || (0x41 <= b && b <= 0x5a) || (0x61 <= b && b <= 0x7a)
}

/// Case folding: an uppercase ASCII letter maps to its lowercase form; every
/// other byte is unchanged.
pub open spec fn spec_fold_byte(b: u8) -> u8 {
    if 0x41 <= b && b <= 0x5a {
        (b + 0x20) as u8
    } else {
        b
    }
}

/// The tokens of `s` when the bytes of `cur` have already been collected as
/// the start of the current token.
pub open spec fn tokenize_from(s: Seq<u8>, cur: Seq<u8>) -> Seq<Seq<u8>>
    decreases s.len(),
{
    if s.len() == 0 {
        if cur.len() > 0 {
            seq![cur]
        } else {
            seq![]
        }
    } else if is_word_byte(s[0]) {
        tokenize_from(s.skip(1), cur.push(spec_fold_byte(s[0])))
    } else if cur.len() > 0 {
        seq![cur] + tokenize_from(s.skip(1), seq![])
    } else {
        tokenize_from(s.skip(1), seq![])
    }
}

/// The token sequence of a text.
pub open spec fn tokenize(s: Seq<u8>) -> Seq<Seq<u8>> {
    tokenize_from(s, seq![])
}

fn fold_byte(b: u8) -> (r: u8)
    ensures
        r == spec_fold_byte(b),
{
    if 0x41 <= b && b <= 0x5a {
        b + 0x20
    } else {
        b
    }
}

/// Tokenizes a text: maximal runs of letters and digits, case-folded to
/// lowercase, in text order.
pub fn tokenize_text(text: &Vec<u8>) -> (r: Vec<Vec<u8>>)
    ensures
        r.deep_view() == tokenize(text@),
{
    let mut out: Vec<Vec<u8>> = Vec::new();
    let mut cur: Vec<u8> = Vec::new();
    let mut i: usize = 0;
    proof {
        assert(text@.skip(0) =~= text@);
        assert(out.deep_view() =~= Seq::<Seq<u8>>::empty());
        assert(cur@ =~= Seq::<u8>::empty());
        assert(tokenize(text@) =~= out.deep_view() + tokenize_from(text@.skip(0), cur@));
    }
    while i < text.len()
        invariant
            0 <= i <= text@.len(),
            tokenize(text@) == out.deep_view() + tokenize_from(text@.skip(i as int), cur@),
        decreases text@.len() - i,
    {
        let b = text[i];
        proof {
            assert(text@.skip(i as int)[0] == text@[i as int]);
            assert(text@.skip(i as int).skip(1) =~= text@.skip(i as int + 1));
        }
        if 0x30 <= b && b <= 0x39 || 0x41 <= b && b <= 0x5a || 0x61 <= b && b <= 0x7a {
            let f = fold_byte(b);
            cur.push(f);
        } else if cur.len() > 0 {
            let ghost pre_out = out.deep_view();
            let ghost pre_cur = cur@;
            let done = cur;
            cur = Vec::new();
            out.push(done);
            proof {
                let n = out@.len();
                assert(out@[n - 1].deep_view() =~= pre_cur);
                assert(out.deep_view() =~= pre_out.push(pre_cur));
                assert(cur@ =~= Seq::<u8>::empty());
                assert(tokenize_from(text@.skip(i as int), pre_cur)
                    == seq![pre_cur] + tokenize_from(text@.skip(i as int + 1), cur@));
                assert(pre_out + (seq![pre_cur] + tokenize_from(text@.skip(i as int + 1), cur@))
                    =~= pre_out.push(pre_cur) + tokenize_from(text@.skip(i as int + 1), cur@));
            }
        } else {
            proof {
                assert(cur@ =~= Seq::<u8>::empty());
            }
        }
        i = i + 1;
    }
    proof {
        assert(text@.skip(i as int) =~= Seq::<u8>::empty());
    }
    if cur.len() > 0 {
        let ghost pre_out = out.deep_view();
        let ghost pre_cur = cur@;
        out.push(cur);
        proof {
            let n = out@.len();
            assert(out@[n - 1].deep_view() =~= pre_cur);
            assert(out.deep_view() =~= pre_out.push(pre_cur));
            assert(pre_out + seq![pre_cur] =~= pre_out.push(pre_cur));
        }
    } else {
        proof {
            assert(out.deep_view() + Seq::<Seq<u8>>::empty() =~= out.deep_view());
        }
    }
    out
}

/// Whether the byte vectors `a` and `b` hold the same bytes.
pub fn bytes_eq(a: &Vec<u8>, b: &Vec<u8>) -> (r: bool)
    ensures
        r == (a@ == b@),
{
    if a.len() != b.len() {
        return false;
    }
    let mut i: usize = 0;
    while i < a.len()
        invariant
            0 <= i <= a@.len(),
            a@.len() == b@.len(),
            forall|j: int| 0 <= j < i ==> a@[j] == b@[j],
        decreases a@.len() - i,
    {
        if a[i] != b[i] {
            return false;
        }
        i = i + 1;
    }
    proof {
        assert(a@ =~= b@);
    }
    true
}

} // verus!
