//! Checks of the index invariants. Each states its property as a
//! precondition, so Verus discharges it at every call site.
//!
//! | Check                          | Property                                  |
//! |--------------------------------|-------------------------------------------|
//! | `check_suffix_entry_valid`     | an entry names a document and a position  |
//! | `check_suffix_array_sorted`    | suffixes appear in byte order             |
//! | `check_suffix_array_complete`  | every position of every text is present   |
//! | `check_lcp_correct`            | each LCP is the common prefix of its pair |
//! | `check_field_hierarchy`        | field weights cannot be inverted by bonus |

use vstd::prelude::*;
use vstd::slice::slice_subrange;
use vstd::utf8::{encode_utf8, is_char_boundary};

use crate::binary::encoding::spec_common_prefix_len;
use crate::text::lex_lt;
use crate::types::{SearchIndex, SuffixEntry};

verus! {

/// The UTF-8 bytes of a text.
pub open spec fn text_bytes(t: String) -> Seq<u8> {
    encode_utf8(t@)
}

/// An entry names an existing text and a byte position inside it.
pub open spec fn spec_entry_valid(e: SuffixEntry, texts: Seq<String>) -> bool {
    e.doc_id < texts.len() && e.offset < text_bytes(texts[e.doc_id as int]).len()
}

/// The suffix an entry stands for: the text from the entry's byte offset
/// when that offset starts a character, else the empty string.
pub open spec fn spec_suffix(texts: Seq<String>, e: SuffixEntry) -> Seq<u8> {
    if e.doc_id < texts.len() && e.offset <= text_bytes(texts[e.doc_id as int]).len()
        && is_char_boundary(text_bytes(texts[e.doc_id as int]), e.offset as int) {
        text_bytes(texts[e.doc_id as int]).skip(e.offset as int)
    } else {
        Seq::empty()
    }
}

/// Consecutive suffixes never decrease in byte order.
pub open spec fn spec_sorted(texts: Seq<String>, sa: Seq<SuffixEntry>) -> bool {
    forall|i: int| 1 <= i < sa.len() ==> !lex_lt(spec_suffix(texts, #[trigger] sa[i]), spec_suffix(texts, sa[i - 1]))
}

/// Some entry is (d, o).
pub open spec fn has_entry(sa: Seq<SuffixEntry>, d: int, o: int) -> bool {
    exists|i: int| 0 <= i < sa.len() && (#[trigger] sa[i]).doc_id == d && sa[i].offset == o
}

/// Every byte position of every text has an entry.
pub open spec fn spec_complete(texts: Seq<String>, sa: Seq<SuffixEntry>) -> bool {
    forall|d: int, o: int| 0 <= d < texts.len() && 0 <= o < text_bytes(texts[d]).len() ==> #[trigger] has_entry(sa, d, o)
}

/// The LCP array matches the suffix array.
pub open spec fn spec_lcp_correct(texts: Seq<String>, sa: Seq<SuffixEntry>, lcp: Seq<usize>) -> bool {
    &&& lcp.len() == sa.len()
    &&& lcp.len() > 0 ==> lcp[0] == 0
    &&& forall|i: int| 1 <= i < sa.len() ==> #[trigger] lcp[i] == spec_common_prefix_len(
        spec_suffix(texts, sa[i - 1]), spec_suffix(texts, sa[i]))
}

/// The bytes of the suffix an entry stands for.
pub(crate) fn suffix_bytes<'a>(texts: &'a [String], e: &SuffixEntry) -> (r: &'a [u8])
    ensures
        r@ == spec_suffix(texts@, *e),
{
    if e.doc_id < texts.len() {
        let t = texts[e.doc_id].as_str();
        let b = t.as_bytes();
        if e.offset <= b.len() && t.is_char_boundary(e.offset) {
            return slice_subrange(b, e.offset, b.len());
        }
    }
    let empty: &[u8] = &[];
    assert(empty@ =~= Seq::<u8>::empty());
    empty
}

/// Every entry names a document and a byte position inside it.
pub open spec fn spec_all_entries_valid(sa: Seq<SuffixEntry>, texts: Seq<String>) -> bool {
    forall|i: int| 0 <= i < sa.len() ==> spec_entry_valid(#[trigger] sa[i], texts)
}

/// A search index is well-formed: as many docs as texts, one LCP per
/// entry, every entry valid, suffixes sorted.
pub open spec fn spec_index_well_formed(index: SearchIndex) -> bool {
    &&& index.docs@.len() == index.texts@.len()
    &&& index.lcp@.len() == index.suffix_array@.len()
    &&& spec_all_entries_valid(index.suffix_array@, index.texts@)
    &&& spec_sorted(index.texts@, index.suffix_array@)
}

/// The byte lengths of two strings differ by at most `max`.
pub open spec fn lengths_within(a: Seq<char>, b: Seq<char>, max: usize) -> bool {
    let la = encode_utf8(a).len();
    let lb = encode_utf8(b).len();
    (if la >= lb { la - lb } else { lb - la }) <= max
}

// Each check below states its property as a precondition: a caller must
// show that it holds, so a violation is refused where the call is written
// and never reached at run time.

/// A suffix entry is well-formed: it names a document and a byte position
/// inside it.
pub fn check_suffix_entry_valid(entry: &SuffixEntry, texts: &[String])
    requires
        spec_entry_valid(*entry, texts@),
{
}

/// All suffix entries are well-formed.
pub fn check_all_entries_valid(suffix_array: &[SuffixEntry], texts: &[String])
    requires
        spec_all_entries_valid(suffix_array@, texts@),
{
    let mut i: usize = 0;
    while i < suffix_array.len()
        invariant
            i <= suffix_array@.len(),
            spec_all_entries_valid(suffix_array@, texts@),
        decreases suffix_array@.len() - i,
    {
        check_suffix_entry_valid(&suffix_array[i], texts);
        i = i + 1;
    }
}

/// The suffix array is sorted: each suffix is at most the next.
pub fn check_suffix_array_sorted(texts: &[String], suffix_array: &[SuffixEntry])
    requires
        spec_sorted(texts@, suffix_array@),
{
}

/// Every byte position of every text has an entry.
pub fn check_suffix_array_complete(texts: &[String], suffix_array: &[SuffixEntry])
    requires
        spec_complete(texts@, suffix_array@),
{
}

/// The LCP array is correct for the suffix array.
pub fn check_lcp_correct(texts: &[String], suffix_array: &[SuffixEntry], lcp: &[usize])
    requires
        spec_lcp_correct(texts@, suffix_array@, lcp@),
{
}

/// A search index is well-formed: as many docs as texts, one LCP per
/// entry, every entry valid, suffixes sorted.
pub fn check_index_well_formed(index: &SearchIndex)
    requires
        spec_index_well_formed(*index),
{
    check_all_entries_valid(index.suffix_array.as_slice(), index.texts.as_slice());
    check_suffix_array_sorted(index.texts.as_slice(), index.suffix_array.as_slice());
}

/// Full check of an index: well-formed, complete, LCP correct.
pub fn check_index_complete(index: &SearchIndex)
    requires
        spec_index_well_formed(*index),
        spec_complete(index.texts@, index.suffix_array@),
        spec_lcp_correct(index.texts@, index.suffix_array@, index.lcp@),
{
    check_index_well_formed(index);
    check_suffix_array_complete(index.texts.as_slice(), index.suffix_array.as_slice());
    check_lcp_correct(index.texts.as_slice(), index.suffix_array.as_slice(), index.lcp.as_slice());
}

/// Field base scores in tenths of a point: title 100, heading 10, content 1.
pub const TITLE_BASE_TENTHS: u32 = 1000;
pub const HEADING_BASE_TENTHS: u32 = 100;
pub const CONTENT_BASE_TENTHS: u32 = 10;
/// The largest position bonus, in tenths of a point (0.5).
pub const MAX_POSITION_BOOST_TENTHS: u32 = 5;

/// The field weights cannot be inverted by a position bonus: the worst
/// title beats the best heading, the worst heading beats the best content.
/// The weights are constants, so the property is proved once, here.
pub fn check_field_hierarchy()
    ensures
        TITLE_BASE_TENTHS - MAX_POSITION_BOOST_TENTHS > HEADING_BASE_TENTHS + MAX_POSITION_BOOST_TENTHS,
        HEADING_BASE_TENTHS - MAX_POSITION_BOOST_TENTHS > CONTENT_BASE_TENTHS + MAX_POSITION_BOOST_TENTHS,
{
    let worst_title = TITLE_BASE_TENTHS - MAX_POSITION_BOOST_TENTHS;
    let best_heading = HEADING_BASE_TENTHS + MAX_POSITION_BOOST_TENTHS;
    let worst_heading = HEADING_BASE_TENTHS - MAX_POSITION_BOOST_TENTHS;
    let best_content = CONTENT_BASE_TENTHS + MAX_POSITION_BOOST_TENTHS;
    assert(worst_title > best_heading);
    assert(worst_heading > best_content);
}

/// Binary search needs a sorted suffix array.
pub fn check_binary_search_precondition(texts: &[String], suffix_array: &[SuffixEntry])
    requires
        spec_sorted(texts@, suffix_array@),
{
    check_suffix_array_sorted(texts, suffix_array);
}

/// A binary search result lies within the suffix array.
pub fn check_binary_search_result(result: usize, suffix_array_len: usize)
    requires
        result <= suffix_array_len,
{
}

/// When the bounded Levenshtein check accepted, the byte lengths differ by
/// at most `max`; a rejection demands nothing.
pub fn check_levenshtein_early_exit(a: &str, b: &str, max: usize, result: bool)
    requires
        result ==> lengths_within(a@, b@, max),
{
}

} // verus!
