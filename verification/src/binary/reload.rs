//! What loading a built file gives back.

use vstd::prelude::*;
use vstd::utf8::encode_utf8;

use crate::binary::docs::{docs_fit, lemma_docs_roundtrip, spec_encode_docs, spec_normalize_doc, DocFields};
use crate::binary::encoding::{
    lemma_section_table_roundtrip, lemma_subrange_skip, lemma_suffix_array_roundtrip, lemma_vocabulary_roundtrip,
    MAX_POSTING_SIZE,
};
use crate::binary::header::{MAX_DOC_COUNT, MAX_FILE_SIZE, MAX_SKIP_LEVELS, MAX_TERM_COUNT};
use crate::binary::layer::{
    lemma_layer_roundtrip, spec_built, spec_layer_bytes, spec_layer_consistent, spec_postings_section,
    spec_skip_section, LayerParts,
};
use crate::binary::loaded::{lemma_postings_progress, spec_load_file, spec_parse_postings_section, LoadedModel};
use crate::binary::encoding::{lemma_varint_len, lemma_varint_roundtrip, spec_varint};
use crate::binary::layer::{spec_doc_ids, spec_skip_entry};
use crate::binary::loaded::spec_parse_skip_section;
use crate::binary::postings::{
    lemma_postings_roundtrip, lemma_skip_list_roundtrip, spec_build_skip_list, spec_encode_postings,
    spec_encode_skip_list, spec_level0, spec_levels_from, spec_rank_order, spec_thin, PostingEntry, SkipEntry,
};
use crate::error::FormatError;

verus! {

/// The postings section read from the front: the first list, then the rest.
proof fn lemma_postings_section_front(pls: Seq<Seq<PostingEntry>>)
    requires
        pls.len() > 0,
    ensures
        spec_postings_section(pls) == spec_encode_postings(pls[0]) + spec_postings_section(pls.drop_first()),
    decreases pls.len(),
{
    if pls.len() == 1 {
        assert(pls.drop_last() =~= Seq::<Seq<PostingEntry>>::empty());
        assert(pls.drop_first() =~= Seq::<Seq<PostingEntry>>::empty());
        assert(spec_postings_section(pls.drop_last()) =~= Seq::<u8>::empty());
        assert(spec_postings_section(pls) =~= spec_encode_postings(pls[0]));
        assert(spec_encode_postings(pls[0]) + spec_postings_section(pls.drop_first()) =~= spec_encode_postings(pls[0]));
    } else {
        lemma_postings_section_front(pls.drop_last());
        assert(pls.drop_last().drop_first() =~= pls.drop_first().drop_last());
        assert(pls.drop_first().last() == pls.last());
        assert(pls.drop_last()[0] == pls[0]);
        assert(spec_postings_section(pls) =~= spec_encode_postings(pls[0]) + spec_postings_section(pls.drop_first()));
    }
}

/// Reading an encoded postings section to its end gives back each list in
/// rank order.
proof fn lemma_postings_section_roundtrip(bytes: Seq<u8>, pos: nat, pls: Seq<Seq<PostingEntry>>)
    requires
        pos <= bytes.len(),
        bytes.subrange(pos as int, bytes.len() as int) == spec_postings_section(pls),
        forall|i: int| 0 <= i < pls.len() ==> (#[trigger] pls[i]).len() <= MAX_POSTING_SIZE,
    ensures
        spec_parse_postings_section(bytes, pos) == Ok::<Seq<Seq<PostingEntry>>, FormatError>(
            pls.map_values(|pl: Seq<PostingEntry>| spec_rank_order(pl)),
        ),
    decreases pls.len(),
{
    if pls.len() == 0 {
        assert(bytes.subrange(pos as int, bytes.len() as int).len() == 0);
        assert(pls.map_values(|pl: Seq<PostingEntry>| spec_rank_order(pl)) =~= Seq::<Seq<PostingEntry>>::empty());
    } else {
        lemma_postings_section_front(pls);
        let first = spec_encode_postings(pls[0]);
        let later = spec_postings_section(pls.drop_first());
        lemma_postings_roundtrip(pls[0], later);
        lemma_postings_progress(first + later);
        assert(bytes.subrange(pos as int, bytes.len() as int) == first + later);
        lemma_subrange_skip(bytes, pos as int, first, later);
        assert forall|i: int| 0 <= i < pls.drop_first().len() implies (#[trigger] pls.drop_first()[i]).len()
            <= MAX_POSTING_SIZE by {
            assert(pls.drop_first()[i] == pls[i + 1]);
        }
        lemma_postings_section_roundtrip(bytes, pos + first.len(), pls.drop_first());
        assert(seq![spec_rank_order(pls[0])] + pls.drop_first().map_values(|pl: Seq<PostingEntry>| spec_rank_order(pl))
            =~= pls.map_values(|pl: Seq<PostingEntry>| spec_rank_order(pl)));
    }
}

proof fn lemma_flag_bit(f: u8)
    requires
        f == 0u8 || f == 1u8,
    ensures
        (f & 1u8 != 0u8) == (f == 1u8),
{
    assert((f == 0u8 || f == 1u8) ==> ((f & 1u8 != 0u8) == (f == 1u8))) by (bit_vector);
}

/// 8 to the power `k`.
spec fn pow8(k: nat) -> nat
    decreases k,
{
    if k == 0 {
        1
    } else {
        8 * pow8((k - 1) as nat)
    }
}

/// A level of at most 8^k entries grows at most k + 1 levels, none longer
/// than it.
proof fn lemma_levels_bound(level: Seq<SkipEntry>, k: nat)
    requires
        level.len() <= pow8(k),
    ensures
        spec_levels_from(level).len() <= k + 1,
        forall|i: int| 0 <= i < spec_levels_from(level).len() ==> (#[trigger] spec_levels_from(level)[i]).len() <= level.len(),
    decreases level.len(),
{
    let t = spec_thin(level);
    if level.len() >= 8 && t.len() >= 2 {
        assert(k > 0);
        let kk = (k - 1) as nat;
        assert(level.len() <= 8 * pow8(kk));
        assert(t.len() <= pow8(kk));
        lemma_levels_bound(t, kk);
        let rest = spec_levels_from(t);
        assert(spec_levels_from(level) == seq![level] + rest);
        assert forall|i: int| 0 <= i < spec_levels_from(level).len() implies (#[trigger] spec_levels_from(level)[i]).len()
            <= level.len() by {
            if i > 0 {
                assert(spec_levels_from(level)[i] == rest[i - 1]);
            }
        }
    } else {
        assert(spec_levels_from(level) == seq![level]);
    }
}

/// A built skip list has at most `MAX_SKIP_LEVELS` levels, each of length
/// within a u64.
proof fn lemma_built_skip_list_fits(pl: Seq<PostingEntry>)
    requires
        pl.len() <= MAX_POSTING_SIZE,
        spec_build_skip_list(spec_doc_ids(pl)) is Some,
    ensures
        spec_build_skip_list(spec_doc_ids(pl))->Some_0.len() <= MAX_SKIP_LEVELS,
        forall|i: int|
            0 <= i < spec_build_skip_list(spec_doc_ids(pl))->Some_0.len() ==> (#[trigger] spec_build_skip_list(
                spec_doc_ids(pl),
            )->Some_0[i]).len() <= u64::MAX,
{
    let ids = spec_doc_ids(pl);
    let l0 = spec_level0(ids);
    assert(ids.len() == pl.len());
    assert(l0.len() <= 32768);
    reveal_with_fuel(pow8, 6);
    assert(pow8(5) == 32768);
    lemma_levels_bound(l0, 5);
}

/// The skip-list entries of terms `j` up to `k`, in order.
spec fn skip_tail(pls: Seq<Seq<PostingEntry>>, j: nat, k: nat) -> Seq<u8>
    decreases k - j,
{
    if j >= k {
        Seq::empty()
    } else {
        spec_skip_entry(j as int, pls[j as int]) + skip_tail(pls, j + 1, k)
    }
}

proof fn lemma_skip_section_split(pls: Seq<Seq<PostingEntry>>, j: nat, k: nat)
    requires
        j <= k <= pls.len(),
    ensures
        spec_skip_section(pls, j) + skip_tail(pls, j, k) == spec_skip_section(pls, k),
    decreases k - j,
{
    if j < k {
        lemma_skip_section_split(pls, j + 1, k);
        assert(spec_skip_section(pls, j + 1) == spec_skip_section(pls, j) + spec_skip_entry(j as int, pls[j as int]));
        assert(spec_skip_section(pls, j) + skip_tail(pls, j, k) =~= spec_skip_section(pls, j + 1) + skip_tail(pls, j + 1, k));
    } else {
        assert(spec_skip_section(pls, j) + skip_tail(pls, j, k) =~= spec_skip_section(pls, k));
    }
}

/// The skip lists of terms `j` up to `k` added to `acc`.
spec fn skip_map_from(pls: Seq<Seq<PostingEntry>>, j: nat, k: nat, acc: Map<usize, Seq<Seq<SkipEntry>>>) -> Map<
    usize,
    Seq<Seq<SkipEntry>>,
>
    decreases k - j,
{
    if j >= k {
        acc
    } else {
        match spec_build_skip_list(spec_doc_ids(pls[j as int])) {
            Some(levels) => skip_map_from(pls, j + 1, k, acc.insert(j as usize, levels)),
            None => skip_map_from(pls, j + 1, k, acc),
        }
    }
}

proof fn lemma_skip_tail_parse(
    bytes: Seq<u8>,
    pos: nat,
    pls: Seq<Seq<PostingEntry>>,
    j: nat,
    k: nat,
    acc: Map<usize, Seq<Seq<SkipEntry>>>,
)
    requires
        j <= k <= pls.len(),
        k <= usize::MAX,
        pos <= bytes.len(),
        bytes.subrange(pos as int, bytes.len() as int) == skip_tail(pls, j, k),
        forall|i: int| 0 <= i < pls.len() ==> (#[trigger] pls[i]).len() <= MAX_POSTING_SIZE,
    ensures
        spec_parse_skip_section(bytes, pos, acc) == Ok::<Map<usize, Seq<Seq<SkipEntry>>>, FormatError>(
            skip_map_from(pls, j, k, acc),
        ),
    decreases k - j,
{
    if j >= k {
        assert(bytes.subrange(pos as int, bytes.len() as int).len() == 0);
    } else {
        let pl = pls[j as int];
        let rest = skip_tail(pls, j + 1, k);
        match spec_build_skip_list(spec_doc_ids(pl)) {
            None => {
                assert(skip_tail(pls, j, k) =~= rest);
                lemma_skip_tail_parse(bytes, pos, pls, j + 1, k, acc);
            },
            Some(levels) => {
                lemma_built_skip_list_fits(pl);
                let v = spec_varint(j as u64);
                let e = spec_encode_skip_list(levels);
                lemma_varint_len(j as u64);
                assert(bytes.subrange(pos as int, bytes.len() as int) =~= v + (e + rest));
                lemma_varint_roundtrip(j as u64, e + rest);
                lemma_subrange_skip(bytes, pos as int, v, e + rest);
                let p = pos + v.len();
                lemma_skip_list_roundtrip(levels, rest);
                assert(e.len() > 0);
                lemma_subrange_skip(bytes, p as int, e, rest);
                assert((j as u64) as usize == j as usize);
                lemma_skip_tail_parse(bytes, p + e.len(), pls, j + 1, k, acc.insert(j as usize, levels));
            },
        }
    }
}

/// The skip lists a file built from these posting lists holds: one for
/// each list of at least 1024 entries, under its term's ordinal.
pub open spec fn built_skip_lists(pls: Seq<Seq<PostingEntry>>) -> Map<usize, Seq<Seq<SkipEntry>>> {
    Map::new(
        |t: usize| t < pls.len() && spec_build_skip_list(spec_doc_ids(pls[t as int])) is Some,
        |t: usize| spec_build_skip_list(spec_doc_ids(pls[t as int]))->Some_0,
    )
}

proof fn lemma_skip_map_is_built(pls: Seq<Seq<PostingEntry>>, j: nat, acc: Map<usize, Seq<Seq<SkipEntry>>>)
    requires
        j <= pls.len() <= usize::MAX,
        forall|t: usize| #[trigger] acc.dom().contains(t) <==> t < j && spec_build_skip_list(spec_doc_ids(pls[t as int])) is Some,
        forall|t: usize| #[trigger] acc.dom().contains(t) ==> acc[t] == spec_build_skip_list(spec_doc_ids(pls[t as int]))->Some_0,
    ensures
        skip_map_from(pls, j, pls.len(), acc) == built_skip_lists(pls),
    decreases pls.len() - j,
{
    if j >= pls.len() {
        assert(acc =~= built_skip_lists(pls));
    } else {
        match spec_build_skip_list(spec_doc_ids(pls[j as int])) {
            Some(levels) => {
                let a2 = acc.insert(j as usize, levels);
                assert forall|t: usize| #[trigger] a2.dom().contains(t) <==> t < j + 1 && spec_build_skip_list(
                    spec_doc_ids(pls[t as int]),
                ) is Some by {}
                lemma_skip_map_is_built(pls, j + 1, a2);
            },
            None => {
                assert forall|t: usize| #[trigger] acc.dom().contains(t) <==> t < j + 1 && spec_build_skip_list(
                    spec_doc_ids(pls[t as int]),
                ) is Some by {
                    if t == j {
                    }
                }
                lemma_skip_map_is_built(pls, j + 1, acc);
            },
        }
    }
}

/// Reading the skip section of a built file gives one skip list for each
/// long enough posting list.
proof fn lemma_skip_section_loads(pls: Seq<Seq<PostingEntry>>)
    requires
        pls.len() <= usize::MAX,
        forall|i: int| 0 <= i < pls.len() ==> (#[trigger] pls[i]).len() <= MAX_POSTING_SIZE,
    ensures
        spec_parse_skip_section(spec_skip_section(pls, pls.len()), 0, Map::empty())
            == Ok::<Map<usize, Seq<Seq<SkipEntry>>>, FormatError>(built_skip_lists(pls)),
{
    let b = spec_skip_section(pls, pls.len());
    lemma_skip_section_split(pls, 0, pls.len());
    assert(spec_skip_section(pls, 0) =~= Seq::<u8>::empty());
    assert(b.subrange(0, b.len() as int) =~= skip_tail(pls, 0, pls.len()));
    lemma_skip_tail_parse(b, 0, pls, 0, pls.len(), Map::empty());
    lemma_skip_map_is_built(pls, 0, Map::empty());
}

/// Decoding the sections of a layer that hold these encodings gives back
/// the encoded values.
#[verifier::spinoff_prover]
#[verifier::rlimit(60)]
proof fn lemma_sections_load(
    q: LayerParts,
    vocabulary: Seq<Seq<char>>,
    suffix_array: Seq<(u32, u32)>,
    postings: Seq<Seq<PostingEntry>>,
    section_table: Seq<Seq<char>>,
    docs: Seq<DocFields>,
)
    requires
        q.vocab == crate::binary::encoding::spec_encode_vocabulary(vocabulary),
        q.suffix_array == crate::binary::encoding::spec_encode_suffix_array(suffix_array),
        q.section_table == crate::binary::encoding::spec_encode_section_table(section_table),
        q.postings == spec_postings_section(postings),
        q.docs == spec_encode_docs(docs),
        q.skip_lists == spec_skip_section(postings, postings.len()),
        q.header.flags.spec_has_skip_lists() == (q.skip_lists.len() > 0),
        postings.len() <= usize::MAX,
        q.header.term_count as nat == vocabulary.len(),
        vocabulary.len() == postings.len(),
        q.vocab.len() <= usize::MAX,
        q.section_table.len() <= usize::MAX,
        forall|i: int| 0 <= i < vocabulary.len() ==> (#[trigger] encode_utf8(vocabulary[i])).len() <= usize::MAX,
        forall|i: int| 0 <= i < postings.len() ==> (#[trigger] postings[i]).len() <= MAX_POSTING_SIZE,
        suffix_array.len() <= MAX_POSTING_SIZE * 10,
        forall|i: int| 0 <= i < suffix_array.len() ==> (#[trigger] suffix_array[i]).0 < 0x10000,
        docs_fit(docs),
    ensures
        crate::binary::loaded::spec_load_layer(q) == Ok::<LoadedModel, FormatError>(
            LoadedModel {
                doc_count: q.header.doc_count,
                vocabulary,
                suffix_array,
                postings: postings.map_values(|pl: Seq<PostingEntry>| spec_rank_order(pl)),
                section_table,
                skip_lists: built_skip_lists(postings),
                lev_dfa: q.lev_dfa,
                docs: docs.map_values(|d: DocFields| spec_normalize_doc(d)),
                dict_tables: q.dict_tables,
                wasm: q.wasm,
            },
        ),
{
    lemma_vocabulary_roundtrip(vocabulary, Seq::<u8>::empty());
    assert(q.vocab + Seq::<u8>::empty() =~= q.vocab);
    lemma_suffix_array_roundtrip(suffix_array, Seq::<u8>::empty());
    assert(q.suffix_array + Seq::<u8>::empty() =~= q.suffix_array);
    lemma_section_table_roundtrip(section_table, Seq::<u8>::empty());
    assert(q.section_table + Seq::<u8>::empty() =~= q.section_table);
    assert(q.postings.subrange(0, q.postings.len() as int) =~= q.postings);
    lemma_postings_section_roundtrip(q.postings, 0, postings);
    lemma_skip_section_loads(postings);
    if q.skip_lists.len() == 0 {
        assert(q.skip_lists =~= Seq::<u8>::empty());
    }
    lemma_docs_roundtrip(docs);
}

/// Loading a file built from a vocabulary, its posting lists, a suffix
/// array, a section table, a Levenshtein automaton, encoded documents and
/// a WASM binary gives them back: the vocabulary, suffix array, section
/// table, automaton and WASM as given, each posting list in rank order,
/// the documents with their type read as "page" or "post" and an empty
/// category or author read as none, and a skip list for each posting list
/// of at least 1024 entries, under its term's ordinal.
#[verifier::spinoff_prover]
#[verifier::rlimit(60)]
pub proof fn lemma_built_file_loads(
    l: LayerParts,
    vocabulary: Seq<Seq<char>>,
    suffix_array: Seq<(u32, u32)>,
    postings: Seq<Seq<PostingEntry>>,
    section_table: Seq<Seq<char>>,
    doc_count: usize,
    lev_dfa: Seq<u8>,
    docs: Seq<DocFields>,
    wasm: Seq<u8>,
)
    requires
        spec_built(l, vocabulary, suffix_array, postings, section_table, doc_count, lev_dfa, spec_encode_docs(docs), wasm),
        spec_layer_bytes(l).len() <= MAX_FILE_SIZE,
        vocabulary.len() == postings.len(),
        postings.len() <= MAX_TERM_COUNT,
        doc_count <= MAX_DOC_COUNT,
        forall|i: int| 0 <= i < vocabulary.len() ==> (#[trigger] encode_utf8(vocabulary[i])).len() <= usize::MAX,
        forall|i: int| 0 <= i < postings.len() ==> (#[trigger] postings[i]).len() <= MAX_POSTING_SIZE,
        suffix_array.len() <= MAX_POSTING_SIZE * 10,
        forall|i: int| 0 <= i < suffix_array.len() ==> (#[trigger] suffix_array[i]).0 < 0x10000,
        docs_fit(docs),
    ensures
        spec_load_file(spec_layer_bytes(l)) == Ok::<LoadedModel, FormatError>(
            LoadedModel {
                doc_count: doc_count as u32,
                vocabulary,
                suffix_array,
                postings: postings.map_values(|pl: Seq<PostingEntry>| spec_rank_order(pl)),
                section_table,
                skip_lists: built_skip_lists(postings),
                lev_dfa,
                docs: docs.map_values(|d: DocFields| spec_normalize_doc(d)),
                dict_tables: Seq::empty(),
                wasm,
            },
        ),
{
    lemma_flag_bit(l.header.flags.0);
    assert(l.header.flags.spec_has_skip_lists() == (l.skip_lists.len() > 0));
    assert(spec_layer_consistent(l));
    lemma_layer_roundtrip(l);
    let q = crate::binary::layer::spec_parse_layer(spec_layer_bytes(l))->Ok_0;
    assert(q.header.flags.spec_has_skip_lists() == (q.skip_lists.len() > 0));
    lemma_sections_load(q, vocabulary, suffix_array, postings, section_table, docs);
}

} // verus!
