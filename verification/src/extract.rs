//! The fragment extractor: a pure transformation from a raw uploaded
//! document to its ordered fragment descriptors. A supported document starts
//! with the magic bytes `%DOC`; its body is a sequence of pages separated by
//! form-feed bytes. Text extraction may fail per page — a page holding any
//! non-textual byte carries no text — without failing the whole call.

use vstd::prelude::*;
use crate::errors::RepoError;
use crate::store::{Fragment, FragmentView};

verus! {

/// Whether the raw bytes begin with the magic of a supported document.
pub open spec fn supported(raw: Seq<u8>) -> bool {
    raw.len() >= 4 && raw[0] == 0x25 && raw[1] == 0x44 && raw[2] == 0x4f && raw[3] == 0x43
}

/// The pages of a body, split at form-feed bytes, with the bytes of `cur`
/// already collected as the start of the current page.
pub open spec fn page_split(s: Seq<u8>, cur: Seq<u8>) -> Seq<Seq<u8>>
    decreases s.len(),
{
    if s.len() == 0 {
        seq![cur]
    } else if s[0] == 0x0c {
        seq![cur] + page_split(s.skip(1), seq![])
    } else {
        page_split(s.skip(1), cur.push(s[0]))
    }
}

/// The pages of a supported document: its body split at form feeds. A
/// document always has at least one page.
pub open spec fn pages_of(raw: Seq<u8>) -> Seq<Seq<u8>> {
    page_split(raw.skip(4), seq![])
}

/// Whether `b` can appear in extracted text: printable ASCII, tab, or a line
/// break.
pub open spec fn is_textual(b: u8) -> bool {
    (0x20 <= b && b <= 0x7e) || b == 0x09 || b == 0x0a || b == 0x0d
}

/// The extracted text of one page: the page bytes when all of them are
/// textual, and nothing otherwise.
pub open spec fn page_text(p: Seq<u8>) -> Option<Seq<u8>> {
    if forall|i: int| 0 <= i < p.len() ==> is_textual(#[trigger] p[i]) {
        Some(p)
    } else {
        None
    }
}

/// The fragment descriptor of one page.
pub open spec fn fragment_of(p: Seq<u8>) -> FragmentView {
    FragmentView { content: p, text: page_text(p) }
}

/// The full extraction model: one fragment per page, in document order.
pub open spec fn extract_model(raw: Seq<u8>) -> Seq<FragmentView> {
    pages_of(raw).map_values(|p: Seq<u8>| fragment_of(p))
}

fn make_fragment(content: Vec<u8>) -> (f: Fragment)
    ensures
        f@ == fragment_of(content@),
{
    let mut textual = true;
    let mut i: usize = 0;
    while i < content.len()
        invariant
            0 <= i <= content@.len(),
            textual == forall|j: int| 0 <= j < i ==> is_textual(#[trigger] content@[j]),
        decreases content@.len() - i,
    {
        let b = content[i];
        if !(0x20 <= b && b <= 0x7e || b == 0x09 || b == 0x0a || b == 0x0d) {
            textual = false;
        }
        i = i + 1;
    }
    if textual {
        let text = content.clone();
        proof {
            assert(text@ =~= content@);
        }
        Fragment { content, text: Some(text) }
    } else {
        Fragment { content, text: None }
    }
}

/// Splits a raw document into its fragments, in page order, each with its
/// extracted text where extraction succeeded. Fails with
/// `UnsupportedFormat` exactly when the bytes do not begin with the
/// document magic.
pub fn extract(raw: &Vec<u8>) -> (r: Result<Vec<Fragment>, RepoError>)
    ensures
        match r {
            Ok(frags) => {
                &&& supported(raw@)
                &&& frags@.map_values(|f: Fragment| f@) == extract_model(raw@)
                &&& frags@.len() == pages_of(raw@).len()
            },
            Err(e) => e == RepoError::UnsupportedFormat && !supported(raw@),
        },
{
    if raw.len() < 4 {
        return Err(RepoError::UnsupportedFormat);
    }
    if raw[0] != 0x25 || raw[1] != 0x44 || raw[2] != 0x4f || raw[3] != 0x43 {
        return Err(RepoError::UnsupportedFormat);
    }
    let mut frags: Vec<Fragment> = Vec::new();
    let mut cur: Vec<u8> = Vec::new();
    let mut i: usize = 4;
    proof {
        assert(frags@.map_values(|f: Fragment| f@) =~= Seq::<FragmentView>::empty());
        assert(cur@ =~= Seq::<u8>::empty());
        assert(extract_model(raw@) =~= frags@.map_values(|f: Fragment| f@) + page_split(
            raw@.skip(i as int),
            cur@,
        ).map_values(|p: Seq<u8>| fragment_of(p)));
    }
    while i < raw.len()
        invariant
            4 <= i <= raw@.len(),
            extract_model(raw@) == frags@.map_values(|f: Fragment| f@) + page_split(
                raw@.skip(i as int),
                cur@,
            ).map_values(|p: Seq<u8>| fragment_of(p)),
        decreases raw@.len() - i,
    {
        let b = raw[i];
        proof {
            assert(raw@.skip(i as int)[0] == raw@[i as int]);
            assert(raw@.skip(i as int).skip(1) =~= raw@.skip(i as int + 1));
        }
        if b == 0x0c {
            let ghost pre_frags = frags@.map_values(|f: Fragment| f@);
            let ghost pre_cur = cur@;
            let page = cur;
            cur = Vec::new();
            let f = make_fragment(page);
            frags.push(f);
            proof {
                assert(cur@ =~= Seq::<u8>::empty());
                assert(frags@.map_values(|f: Fragment| f@) =~= pre_frags.push(
                    fragment_of(pre_cur),
                ));
                let rest = page_split(raw@.skip(i as int + 1), cur@).map_values(
                    |p: Seq<u8>| fragment_of(p),
                );
                assert(page_split(raw@.skip(i as int), pre_cur).map_values(
                    |p: Seq<u8>| fragment_of(p),
                ) =~= seq![fragment_of(pre_cur)] + rest);
                assert(pre_frags + (seq![fragment_of(pre_cur)] + rest) =~= pre_frags.push(
                    fragment_of(pre_cur),
                ) + rest);
            }
        } else {
            cur.push(b);
        }
        i = i + 1;
    }
    proof {
        assert(raw@.skip(i as int) =~= Seq::<u8>::empty());
    }
    let ghost pre_frags = frags@.map_values(|f: Fragment| f@);
    let ghost pre_cur = cur@;
    let f = make_fragment(cur);
    frags.push(f);
    proof {
        assert(frags@.map_values(|f: Fragment| f@) =~= pre_frags.push(fragment_of(pre_cur)));
        assert(page_split(Seq::<u8>::empty(), pre_cur).map_values(|p: Seq<u8>| fragment_of(p))
            =~= seq![fragment_of(pre_cur)]);
        assert(pre_frags + seq![fragment_of(pre_cur)] =~= pre_frags.push(fragment_of(pre_cur)));
        assert(frags@.len() == pages_of(raw@).len()) by {
            assert(frags@.map_values(|f: Fragment| f@).len() == frags@.len());
            assert(extract_model(raw@).len() == pages_of(raw@).len());
        }
    }
    Ok(frags)
}

} // verus!
