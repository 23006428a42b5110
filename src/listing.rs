use vstd::prelude::*;
use vstd::string::StringSliceAdditionalSpecFns;
use vstd::utf8::{decode_utf8, valid_utf8};

use crate::scheduler::compare_text;

verus! {

/// `b` holds `pat` at `i`.
pub open spec fn holds_at(b: Seq<u8>, i: int, pat: Seq<u8>) -> bool {
    0 <= i && i + pat.len() <= b.len() && b.subrange(i, i + pat.len()) == pat
}

pub open spec fn open_tag(tag: Seq<u8>) -> Seq<u8> {
    seq![0x3Cu8] + tag + seq![0x3Eu8]
}

pub open spec fn close_tag(tag: Seq<u8>) -> Seq<u8> {
    seq![0x3Cu8, 0x2F] + tag + seq![0x3Eu8]
}

/// The first index at or after `i` that holds `<`, or the length.
pub open spec fn run_end(b: Seq<u8>, i: int) -> int
    decreases b.len() - i,
{
    if i < 0 || i >= b.len() {
        if i < 0 {
            0
        } else {
            b.len() as int
        }
    } else if b[i] == 0x3C {
        i
    } else {
        run_end(b, i + 1)
    }
}

/// Where the element that starts at `i` ends its text: `<tag>`, at least one
/// byte other than `<`, then `</tag>`.
pub open spec fn element_text_end(b: Seq<u8>, tag: Seq<u8>, i: int) -> Option<int> {
    let s = i + open_tag(tag).len();
    let e = run_end(b, s);
    if holds_at(b, i, open_tag(tag)) && e > s && holds_at(b, e, close_tag(tag)) {
        Some(e)
    } else {
        None
    }
}

/// The texts of the `tag` elements from `i` on, leftmost first, without overlap.
pub open spec fn element_texts(b: Seq<u8>, tag: Seq<u8>, i: int) -> Seq<Seq<u8>>
    decreases b.len() - i,
{
    if i < 0 || i >= b.len() {
        Seq::empty()
    } else {
        match element_text_end(b, tag, i) {
            Some(e) => {
                if e + close_tag(tag).len() > i {
                    seq![b.subrange(i + open_tag(tag).len(), e)] + element_texts(b, tag, e + close_tag(tag).len())
                } else {
                    Seq::empty()
                }
            },
            None => element_texts(b, tag, i + 1),
        }
    }
}

/// The decoded texts that are valid UTF-8, in order.
pub open spec fn decoded_texts(texts: Seq<Seq<u8>>) -> Seq<Seq<char>>
    decreases texts.len(),
{
    if texts.len() == 0 {
        Seq::empty()
    } else {
        let rest = decoded_texts(texts.drop_first());
        if valid_utf8(texts[0]) {
            seq![decode_utf8(texts[0])] + rest
        } else {
            rest
        }
    }
}

/// Relies on `String::from_utf8`: the text of the bytes when they are valid
/// UTF-8, else nothing.
#[verifier::external_body]
fn text_from_utf8(bytes: Vec<u8>) -> (r: Option<String>)
    ensures
        r is Some <==> valid_utf8(bytes@),
        r matches Some(s) ==> s@ == decode_utf8(bytes@),
{
    String::from_utf8(bytes).ok()
}

fn holds_at_exec(b: &[u8], i: usize, pat: &Vec<u8>) -> (r: bool)
    ensures
        r == holds_at(b@, i as int, pat@),
{
    if i > b.len() || b.len() - i < pat.len() {
        return false;
    }
    let mut k: usize = 0;
    while k < pat.len()
        invariant
            i + pat@.len() <= b.len(),
            0 <= k <= pat@.len(),
            forall|m: int| 0 <= m < k ==> b@[i + m] == pat@[m],
        decreases pat@.len() - k,
    {
        if b[i + k] != pat[k] {
            assert(b@.subrange(i as int, i + pat@.len())[k as int] != pat@[k as int]);
            return false;
        }
        k = k + 1;
    }
    assert(b@.subrange(i as int, i + pat@.len()) =~= pat@);
    true
}

fn run_end_exec(b: &[u8], i: usize) -> (r: usize)
    requires
        i <= b@.len(),
    ensures
        r == run_end(b@, i as int),
        i <= r <= b@.len(),
{
    let mut j = i;
    while j < b.len() && b[j] != 0x3C
        invariant
            i <= j <= b@.len(),
            run_end(b@, j as int) == run_end(b@, i as int),
        decreases b@.len() - j,
    {
        j = j + 1;
    }
    j
}

fn copy_bytes(b: &[u8], start: usize, end: usize) -> (r: Vec<u8>)
    requires
        start <= end <= b@.len(),
    ensures
        r@ == b@.subrange(start as int, end as int),
{
    let mut out: Vec<u8> = Vec::new();
    let mut i = start;
    while i < end
        invariant
            start <= i <= end <= b@.len(),
            out@ == b@.subrange(start as int, i as int),
        decreases end - i,
    {
        out.push(b[i]);
        i = i + 1;
        assert(out@ =~= b@.subrange(start as int, i as int));
    }
    out
}

proof fn lemma_decoded_texts_push(texts: Seq<Seq<u8>>, t: Seq<u8>)
    ensures
        decoded_texts(texts.push(t)) == decoded_texts(texts) + if valid_utf8(t) {
            seq![decode_utf8(t)]
        } else {
            Seq::<Seq<char>>::empty()
        },
    decreases texts.len(),
{
    if texts.len() == 0 {
        assert(texts.push(t).drop_first() =~= Seq::<Seq<u8>>::empty());
        assert(decoded_texts(Seq::<Seq<u8>>::empty()) =~= Seq::<Seq<char>>::empty());
    } else {
        assert(texts.push(t).drop_first() =~= texts.drop_first().push(t));
        lemma_decoded_texts_push(texts.drop_first(), t);
        assert(texts.push(t)[0] == texts[0]);
        let rest_new = decoded_texts(texts.drop_first().push(t));
        if valid_utf8(texts[0]) {
            assert(seq![decode_utf8(texts[0])] + rest_new =~= decoded_texts(texts) + if valid_utf8(t) {
                seq![decode_utf8(t)]
            } else {
                Seq::<Seq<char>>::empty()
            });
        }
    }
}

/// The texts of the `<tag>…</tag>` elements of an XML document whose text is
/// non-empty and holds no `<`, in document order.
pub fn parse_xml_tag_values(xml: &str, tag: &str) -> (r: Vec<String>)
    ensures
        r@.map_values(|s: String| s@) == decoded_texts(element_texts(xml.spec_bytes(), tag.spec_bytes(), 0)),
{
    let b = xml.as_bytes();
    let t = tag.as_bytes();
    let mut open: Vec<u8> = Vec::new();
    open.push(0x3C);
    let mut k: usize = 0;
    while k < t.len()
        invariant
            0 <= k <= t@.len(),
            open@ == seq![0x3Cu8] + t@.subrange(0, k as int),
        decreases t@.len() - k,
    {
        open.push(t[k]);
        k = k + 1;
        assert(open@ =~= seq![0x3Cu8] + t@.subrange(0, k as int));
    }
    let mut close: Vec<u8> = Vec::new();
    close.push(0x3C);
    close.push(0x2F);
    let mut k: usize = 0;
    while k < t.len()
        invariant
            0 <= k <= t@.len(),
            close@ == seq![0x3Cu8, 0x2F] + t@.subrange(0, k as int),
            open@ == seq![0x3Cu8] + t@,
        decreases t@.len() - k,
    {
        close.push(t[k]);
        k = k + 1;
        assert(close@ =~= seq![0x3Cu8, 0x2F] + t@.subrange(0, k as int));
    }
    open.push(0x3E);
    close.push(0x3E);
    assert(t@.subrange(0, t@.len() as int) =~= t@);
    assert(open@ =~= open_tag(t@));
    assert(close@ =~= close_tag(t@));
    let mut out: Vec<String> = Vec::new();
    let ghost mut found: Seq<Seq<u8>> = Seq::empty();
    let mut i: usize = 0;
    while i < b.len()
        invariant
            open@ == open_tag(t@),
            close@ == close_tag(t@),
            0 <= i <= b@.len(),
            found + element_texts(b@, t@, i as int) == element_texts(b@, t@, 0),
            out@.map_values(|s: String| s@) == decoded_texts(found),
        decreases b@.len() - i,
    {
        let ghost at_i = element_texts(b@, t@, i as int);
        if holds_at_exec(b, i, &open) {
            let s = i + open.len();
            let e = run_end_exec(b, s);
            if e > s && holds_at_exec(b, e, &close) {
                let text = copy_bytes(b, s, e);
                let next = e + close.len();
                proof {
                    let rest = element_texts(b@, t@, next as int);
                    assert(at_i == seq![text@] + rest);
                    assert(found + at_i =~= found.push(text@) + rest);
                    lemma_decoded_texts_push(found, text@);
                    found = found.push(text@);
                }
                let ghost before = out@;
                match text_from_utf8(text) {
                    Some(value) => {
                        out.push(value);
                        assert(out@.map_values(|s: String| s@) =~= before.map_values(|s: String| s@).push(
                            value@,
                        ));
                    },
                    None => {},
                }
                i = next;
                continue;
            }
        }
        i = i + 1;
    }
    proof {
        assert(element_texts(b@, t@, i as int) =~= Seq::<Seq<u8>>::empty());
        assert(found + Seq::<Seq<u8>>::empty() =~= found);
    }
    out
}

/// The text of the first `<tag>` element, as `parse_xml_tag_values` reads it.
pub fn parse_xml_tag_value(xml: &str, tag: &str) -> (r: Option<String>)
    ensures
        ({
            let all = decoded_texts(element_texts(xml.spec_bytes(), tag.spec_bytes(), 0));
            if all.len() == 0 {
                r is None
            } else {
                r matches Some(s) && s@ == all[0]
            }
        }),
{
    let mut all = parse_xml_tag_values(xml, tag);
    if all.len() == 0 {
        None
    } else {
        let ghost v = all@;
        let first = all.swap_remove(0);
        assert(first@ == v.map_values(|s: String| s@)[0]);
        Some(first)
    }
}

/// The text of the first `tag` element of `xml`, if any.
pub open spec fn first_tag_text(xml: &str, tag: &str) -> Option<Seq<char>> {
    let all = decoded_texts(element_texts(xml.spec_bytes(), tag.spec_bytes(), 0));
    if all.len() == 0 {
        None
    } else {
        Some(all[0])
    }
}

/// The continuation token of a listing page that says it is truncated; none
/// when the listing is complete.
pub fn listing_continuation(xml: &str) -> (r: Option<String>)
    ensures
        if first_tag_text(xml, "IsTruncated") == Some("true"@) {
            match first_tag_text(xml, "NextContinuationToken") {
                Some(t) => r matches Some(s) && s@ == t,
                None => r is None,
            }
        } else {
            r is None
        },
{
    let truncated = match parse_xml_tag_value(xml, "IsTruncated") {
        Some(v) => {
            let c = compare_text(v.as_str(), "true");
            proof {
                if c == 0 {
                    crate::scheduler::lemma_text_cmp_zero_eq(v@, "true"@);
                } else {
                    crate::scheduler::lemma_text_cmp_eq_zero(v@, "true"@);
                }
            }
            c == 0
        },
        None => false,
    };
    if truncated {
        parse_xml_tag_value(xml, "NextContinuationToken")
    } else {
        None
    }
}

} // verus!
