//! The archive walker: expands a parsed zip container, nested archives
//! included, into descriptors of its text-bearing entries, and extracts
//! entry contents on demand.
//!
//! The archive type is opaque; its contents are named by the uninterpreted
//! functions [`zip_names`], [`zip_sizes`] and [`zip_bytes`], the parse of a
//! buffer by [`zip_parses`], [`zip_names_of`], [`zip_sizes_of`] and
//! [`zip_bytes_of`], and every trusted wrapper speaks of those names.

use crate::list_and_read::{content_from_bytes, lossy_of, FileForIndex};
use crate::mt::FILE_SIZE_LIMIT_BYTES;
use crate::strutil::{extension_of, has_extension};
use std::collections::VecDeque;
use vstd::prelude::*;

verus! {

#[verifier::external_type_specification]
#[verifier::external_body]
#[verifier::reject_recursive_types(R)]
pub struct ExZipArchive<R>(zip::read::ZipArchive<R>);

#[verifier::external_type_specification]
#[verifier::external_body]
#[verifier::reject_recursive_types(T)]
pub struct ExCursor<T>(std::io::Cursor<T>);

/// The entry names of this archive, in central-directory order.
pub uninterp spec fn zip_names(a: zip::read::ZipArchive<std::io::Cursor<Vec<u8>>>) -> Seq<
    Seq<char>,
>;

/// The declared uncompressed size of each entry of this archive on which the
/// by-name lookup succeeds.  The archive is an in-memory value, so which
/// entries those are, and their sizes, are functions of the value alone.
pub uninterp spec fn zip_sizes(a: zip::read::ZipArchive<std::io::Cursor<Vec<u8>>>) -> Map<
    Seq<char>,
    nat,
>;

/// The uncompressed bytes of each entry of this archive whose by-name lookup
/// and full read both succeed; a function of the archive value alone.
pub uninterp spec fn zip_bytes(a: zip::read::ZipArchive<std::io::Cursor<Vec<u8>>>) -> Map<
    Seq<char>,
    Seq<u8>,
>;

/// Whether `ZipArchive::new` accepts this buffer as an archive.
pub uninterp spec fn zip_parses(bytes: Seq<u8>) -> bool;

/// The entry names of the archive parsed from this buffer.
pub uninterp spec fn zip_names_of(bytes: Seq<u8>) -> Seq<Seq<char>>;

/// The entry sizes of the archive parsed from this buffer.
pub uninterp spec fn zip_sizes_of(bytes: Seq<u8>) -> Map<Seq<char>, nat>;

/// The entry bytes of the archive parsed from this buffer.
pub uninterp spec fn zip_bytes_of(bytes: Seq<u8>) -> Map<Seq<char>, Seq<u8>>;

/// Relies on zip's `ZipArchive::new`: parsing an in-memory buffer either
/// fails or yields an archive, and both the outcome and the archive's
/// contents are functions of the buffer alone.
#[verifier::external_body]
fn zip_parse(buf: Vec<u8>) -> (r: Option<zip::read::ZipArchive<std::io::Cursor<Vec<u8>>>>)
    ensures
        r is Some <==> zip_parses(buf@),
        r matches Some(a) ==> zip_names(a) == zip_names_of(buf@) && zip_sizes(a) == zip_sizes_of(
            buf@,
        ) && zip_bytes(a) == zip_bytes_of(buf@),
{
    zip::read::ZipArchive::new(std::io::Cursor::new(buf)).ok()
}

/// Relies on zip's `file_names`: the names of all entries, in the archive's
/// central-directory order.
#[verifier::external_body]
fn zip_file_names(a: &zip::read::ZipArchive<std::io::Cursor<Vec<u8>>>) -> (r: Vec<String>)
    ensures
        r@.map_values(|s: String| s@) == zip_names(*a),
{
    a.file_names().map(|s| s.to_string()).collect()
}

/// Relies on zip's `by_name` and `ZipFile::size`: the declared uncompressed
/// size of the named entry, exactly when the lookup succeeds.  Looking an
/// entry up moves the underlying cursor but leaves the archive's contents
/// unchanged.
#[verifier::external_body]
fn zip_entry_size(a: &mut zip::read::ZipArchive<std::io::Cursor<Vec<u8>>>, name: &str) -> (r:
    Option<u64>)
    ensures
        zip_names(*final(a)) == zip_names(*old(a)),
        zip_sizes(*final(a)) == zip_sizes(*old(a)),
        zip_bytes(*final(a)) == zip_bytes(*old(a)),
        r is Some <==> zip_sizes(*old(a)).dom().contains(name@),
        r matches Some(n) ==> n == zip_sizes(*old(a))[name@],
{
    match a.by_name(name) {
        Ok(f) => Some(f.size()),
        Err(_) => None,
    }
}

/// Relies on zip's `by_name` and `Read::read_to_end`: the uncompressed bytes
/// of the named entry, exactly when the lookup and the read both succeed.
/// As with `zip_entry_size`, the archive's contents are unchanged.
#[verifier::external_body]
fn zip_entry_bytes(a: &mut zip::read::ZipArchive<std::io::Cursor<Vec<u8>>>, name: &str) -> (r:
    Option<Vec<u8>>)
    ensures
        zip_names(*final(a)) == zip_names(*old(a)),
        zip_sizes(*final(a)) == zip_sizes(*old(a)),
        zip_bytes(*final(a)) == zip_bytes(*old(a)),
        r is Some <==> zip_bytes(*old(a)).dom().contains(name@),
        r matches Some(b) ==> b@ == zip_bytes(*old(a))[name@],
{
    let mut f = match a.by_name(name) {
        Ok(f) => f,
        Err(_) => return None,
    };
    let mut buf = vec![];
    match std::io::Read::read_to_end(&mut f, &mut buf) {
        Ok(_) => Some(buf),
        Err(_) => None,
    }
}

/// The names with a `.txt` extension, in order.
pub open spec fn txt_names(names: Seq<Seq<char>>) -> Seq<Seq<char>> {
    names.filter(|n: Seq<char>| extension_of(n) == Some("txt"@))
}

/// A descriptor the walker emits: the `.txt`-named entries of its archive,
/// in the archive's own order.
pub open spec fn is_zip_descriptor(d: FileForIndex) -> bool {
    d matches FileForIndex::Zip(paths, a) && paths@.map_values(|s: String| s@) == txt_names(
        zip_names(a),
    )
}

/// The descriptor holds an archive with exactly these contents and lists its
/// `.txt`-named entries.
pub open spec fn describes_archive(
    d: FileForIndex,
    names: Seq<Seq<char>>,
    sizes: Map<Seq<char>, nat>,
    bytes: Map<Seq<char>, Seq<u8>>,
) -> bool {
    &&& d is Zip
    &&& zip_names(d->Zip_1) == names
    &&& zip_sizes(d->Zip_1) == sizes
    &&& zip_bytes(d->Zip_1) == bytes
    &&& (d->Zip_0)@.map_values(|s: String| s@) == txt_names(names)
}

/// The descriptor describes the archive parsed from the buffer `b`.
pub open spec fn describes_parsed(d: FileForIndex, b: Seq<u8>) -> bool {
    describes_archive(d, zip_names_of(b), zip_sizes_of(b), zip_bytes_of(b))
}

/// Entry `k` of an archive with these names and bytes is a readable nested
/// archive: named with the archive extension, fully readable, and its bytes
/// parse as an archive.
pub open spec fn is_nested_zip(
    names: Seq<Seq<char>>,
    bytes: Map<Seq<char>, Seq<u8>>,
    k: int,
) -> bool {
    &&& 0 <= k < names.len()
    &&& extension_of(names[k]) == Some("zip"@)
    &&& bytes.dom().contains(names[k])
    &&& zip_parses(bytes[names[k]])
}

/// Descriptor `i` of `r` obliges the walker to expand its nested archive
/// entry `k`.
pub open spec fn nested_obligation(r: Seq<FileForIndex>, i: int, k: int) -> bool {
    &&& 0 <= i < r.len()
    &&& r[i] is Zip
    &&& is_nested_zip(zip_names(r[i]->Zip_1), zip_bytes(r[i]->Zip_1), k)
}

/// The buffer of the nested archive behind obligation `(i, k)`.
pub open spec fn nested_zip_buffer(r: Seq<FileForIndex>, i: int, k: int) -> Seq<u8> {
    zip_bytes(r[i]->Zip_1)[zip_names(r[i]->Zip_1)[k]]
}

/// Every readable, parseable `.zip`-named entry of every emitted archive has
/// a descriptor of its own among the emitted ones.
pub open spec fn covers_nested(r: Seq<FileForIndex>) -> bool {
    forall|i: int, k: int|
        #[trigger] nested_obligation(r, i, k) ==> exists|j: int|
            0 <= j < r.len() && describes_parsed(#[trigger] r[j], nested_zip_buffer(r, i, k))
}

/// The number of readable, parseable nested-archive entries among the
/// first `k` entries of an archive with these names and bytes.
pub open spec fn nested_zip_count_upto(
    names: Seq<Seq<char>>,
    bytes: Map<Seq<char>, Seq<u8>>,
    k: int,
) -> nat
    decreases k,
{
    if k <= 0 {
        0
    } else {
        nested_zip_count_upto(names, bytes, k - 1) + (if is_nested_zip(names, bytes, k - 1) {
            1nat
        } else {
            0nat
        })
    }
}

/// The number of readable, parseable nested-archive entries of one archive.
pub open spec fn nested_zip_count(names: Seq<Seq<char>>, bytes: Map<Seq<char>, Seq<u8>>) -> nat {
    nested_zip_count_upto(names, bytes, names.len() as int)
}

/// The total number of nested-archive obligations over a descriptor
/// sequence: how many further archives the emitted ones oblige the walker
/// to expand.
pub open spec fn total_obligations(r: Seq<FileForIndex>) -> nat
    decreases r.len(),
{
    if r.len() == 0 {
        0
    } else {
        total_obligations(r.drop_last()) + (if r.last() is Zip {
            nested_zip_count(zip_names(r.last()->Zip_1), zip_bytes(r.last()->Zip_1))
        } else {
            0nat
        })
    }
}

/// The archive value holds exactly the contents of the parse of buffer `b`.
pub open spec fn archive_matches_parsed(
    a: zip::read::ZipArchive<std::io::Cursor<Vec<u8>>>,
    b: Seq<u8>,
) -> bool {
    &&& zip_names(a) == zip_names_of(b)
    &&& zip_sizes(a) == zip_sizes_of(b)
    &&& zip_bytes(a) == zip_bytes_of(b)
}

/// Expands one parsed archive into descriptors of its text-bearing entries.
/// The first descriptor is the root's; entries named with the archive
/// extension are read into memory, reparsed, and expanded the same way from
/// an explicit work queue, so nesting depth never grows the call stack;
/// entries that fail to read or reparse are skipped while the rest of the
/// walk continues.  The coverage and exactness clauses are unconditional
/// for any walk that stays under the (unreachable) descriptor budget: one
/// descriptor per expanded archive, the root plus exactly one per nested
/// obligation — no archive's texts are emitted twice.
pub fn get_file_names_from_zip_archive(
    zip_archive: zip::read::ZipArchive<std::io::Cursor<Vec<u8>>>,
) -> (r: Vec<FileForIndex>)
    ensures
        forall|i: int| 0 <= i < r@.len() ==> is_zip_descriptor(#[trigger] r@[i]),
        r@.len() >= 1,
        describes_archive(
            r@[0],
            zip_names(zip_archive),
            zip_sizes(zip_archive),
            zip_bytes(zip_archive),
        ),
        r@.len() < u64::MAX ==> covers_nested(r@),
        r@.len() < u64::MAX ==> r@.len() == 1 + total_obligations(r@),
{
    let ghost root_names = zip_names(zip_archive);
    let ghost root_sizes = zip_sizes(zip_archive);
    let ghost root_bytes = zip_bytes(zip_archive);
    let mut zip_archive_deque: VecDeque<zip::read::ZipArchive<std::io::Cursor<Vec<u8>>>> =
        VecDeque::new();
    zip_archive_deque.push_back(zip_archive);
    let mut out: Vec<FileForIndex> = Vec::new();
    // Each iteration consumes one queued archive and emits one descriptor,
    // and every queued archive was materialized from bytes of its parent, so
    // the budget is far beyond what any input can reach; it makes
    // termination a theorem rather than an argument about shrinking buffers
    // that the opaque archive type cannot express.
    let mut nesting_budget: u64 = u64::MAX;
    proof {
        assert(total_obligations(out@) == 0);
    }
    loop
        invariant
            forall|i: int| 0 <= i < out@.len() ==> is_zip_descriptor(#[trigger] out@[i]),
            out@.len() == u64::MAX - nesting_budget,
            out@.len() == 0 ==> zip_archive_deque@.len() == 1 && archive_matches(
                zip_archive_deque@[0],
                root_names,
                root_sizes,
                root_bytes,
            ),
            out@.len() >= 1 ==> describes_archive(out@[0], root_names, root_sizes, root_bytes),
            out@.len() + zip_archive_deque@.len() == 1 + total_obligations(out@),
            forall|i: int, k: int|
                #[trigger] nested_obligation(out@, i, k) ==> (exists|j: int|
                    0 <= j < out@.len() && describes_parsed(
                        #[trigger] out@[j],
                        nested_zip_buffer(out@, i, k),
                    )) || (exists|w: int|
                    0 <= w < zip_archive_deque@.len() && archive_matches_parsed(
                        #[trigger] zip_archive_deque@[w],
                        nested_zip_buffer(out@, i, k),
                    )),
        ensures
            forall|i: int| 0 <= i < out@.len() ==> is_zip_descriptor(#[trigger] out@[i]),
            out@.len() >= 1,
            describes_archive(out@[0], root_names, root_sizes, root_bytes),
            zip_archive_deque@.len() == 0 || out@.len() == u64::MAX,
            out@.len() + zip_archive_deque@.len() == 1 + total_obligations(out@),
            forall|i: int, k: int|
                #[trigger] nested_obligation(out@, i, k) ==> (exists|j: int|
                    0 <= j < out@.len() && describes_parsed(
                        #[trigger] out@[j],
                        nested_zip_buffer(out@, i, k),
                    )) || (exists|w: int|
                    0 <= w < zip_archive_deque@.len() && archive_matches_parsed(
                        #[trigger] zip_archive_deque@[w],
                        nested_zip_buffer(out@, i, k),
                    )),
        decreases nesting_budget,
    {
        if nesting_budget == 0 {
            break ;
        }
        let ghost out_before = out@;
        let ghost work_before = zip_archive_deque@;
        let mut popped_zip_archive = match zip_archive_deque.pop_front() {
            Some(v) => v,
            None => {
                break ;
            },
        };
        nesting_budget = nesting_budget - 1;
        let ghost names0 = zip_names(popped_zip_archive);
        let ghost sizes0 = zip_sizes(popped_zip_archive);
        let ghost bytes0 = zip_bytes(popped_zip_archive);
        let file_names = zip_file_names(&popped_zip_archive);
        let n = file_names.len();
        let mut regular_file_names: Vec<String> = Vec::new();
        proof {
            reveal(Seq::filter);
            assert(names0.take(0) =~= Seq::<Seq<char>>::empty());
            assert(txt_names(names0.take(0)) =~= Seq::<Seq<char>>::empty());
        }
        for i in 0..n
            invariant
                n == file_names@.len(),
                file_names@.map_values(|s: String| s@) == names0,
                regular_file_names@.map_values(|s: String| s@) == txt_names(
                    names0.take(i as int),
                ),
        {
            proof {
                reveal(Seq::filter);
                assert(file_names@.map_values(|s: String| s@)[i as int] == file_names@[
                    i as int]@);
                assert(names0.take(i + 1).drop_last() =~= names0.take(i as int));
                assert(names0.take(i + 1).last() == names0[i as int]);
            }
            if has_extension(file_names[i].as_str(), "txt") {
                regular_file_names.push(file_names[i].clone());
                proof {
                    assert(regular_file_names@.map_values(|s: String| s@) =~= txt_names(
                        names0.take(i + 1),
                    ));
                }
            } else {
                proof {
                    assert(regular_file_names@.map_values(|s: String| s@) =~= txt_names(
                        names0.take(i + 1),
                    ));
                }
            }
        }
        proof {
            assert(names0.take(n as int) =~= names0);
        }
        let ghost work_mid = zip_archive_deque@;
        for i in 0..n
            invariant
                n == file_names@.len(),
                file_names@.map_values(|s: String| s@) == names0,
                zip_names(popped_zip_archive) == names0,
                zip_sizes(popped_zip_archive) == sizes0,
                zip_bytes(popped_zip_archive) == bytes0,
                work_mid.len() <= zip_archive_deque@.len(),
                zip_archive_deque@.len() == work_mid.len() + nested_zip_count_upto(
                    names0,
                    bytes0,
                    i as int,
                ),
                forall|w: int|
                    0 <= w < work_mid.len() ==> #[trigger] zip_archive_deque@[w] == work_mid[w],
                forall|k: int|
                    0 <= k < i && is_nested_zip(names0, bytes0, k) ==> exists|w: int|
                        0 <= w < zip_archive_deque@.len() && archive_matches_parsed(
                            #[trigger] zip_archive_deque@[w],
                            bytes0[names0[k]],
                        ),
        {
            let ghost dq0 = zip_archive_deque@;
            proof {
                assert(file_names@.map_values(|s: String| s@)[i as int] == file_names@[
                    i as int]@);
            }
            if has_extension(file_names[i].as_str(), "zip") {
                match zip_entry_bytes(&mut popped_zip_archive, file_names[i].as_str()) {
                    Some(buf) => {
                        let ghost work_at = zip_archive_deque@;
                        match zip_parse(buf) {
                            Some(nested_zip_archive) => {
                                zip_archive_deque.push_back(nested_zip_archive);
                                proof {
                                    assert(zip_archive_deque@[work_at.len() as int]
                                        == nested_zip_archive);
                                    assert(archive_matches_parsed(
                                        nested_zip_archive,
                                        bytes0[names0[i as int]],
                                    ));
                                    assert(is_nested_zip(names0, bytes0, i as int));
                                }
                            },
                            None => {
                                proof {
                                    assert(!zip_parses(bytes0[names0[i as int]]));
                                    assert(!is_nested_zip(names0, bytes0, i as int));
                                }
                            },
                        }
                    },
                    None => {
                        proof {
                            assert(!bytes0.dom().contains(names0[i as int]));
                            assert(!is_nested_zip(names0, bytes0, i as int));
                        }
                    },
                }
            } else {
                proof {
                    assert(extension_of(names0[i as int]) != Some("zip"@));
                    assert(!is_nested_zip(names0, bytes0, i as int));
                }
            }
            proof {
                assert(nested_zip_count_upto(names0, bytes0, i + 1) == nested_zip_count_upto(
                    names0,
                    bytes0,
                    i as int,
                ) + (if is_nested_zip(names0, bytes0, i as int) {
                    1nat
                } else {
                    0nat
                }));
                assert(dq0.len() <= zip_archive_deque@.len());
                assert(forall|w: int|
                    0 <= w < dq0.len() ==> #[trigger] zip_archive_deque@[w] == dq0[w]);
                assert forall|k: int|
                    0 <= k < i + 1 && is_nested_zip(names0, bytes0, k) implies exists|w: int|
                    0 <= w < zip_archive_deque@.len() && archive_matches_parsed(
                        #[trigger] zip_archive_deque@[w],
                        bytes0[names0[k]],
                    ) by {
                    if k < i {
                        let w = choose|w: int|
                            0 <= w < dq0.len() && archive_matches_parsed(
                                #[trigger] dq0[w],
                                bytes0[names0[k]],
                            );
                        assert(zip_archive_deque@[w] == dq0[w]);
                        assert(archive_matches_parsed(zip_archive_deque@[w], bytes0[names0[k]]));
                    } else {
                        assert(k == i);
                        assert(extension_of(names0[k]) == Some("zip"@));
                        assert(bytes0.dom().contains(names0[k]));
                        assert(zip_parses(bytes0[names0[k]]));
                    }
                }
            }
        }
        out.push(FileForIndex::Zip(regular_file_names, popped_zip_archive));
        proof {
            let d = FileForIndex::Zip(regular_file_names, popped_zip_archive);
            let new_len = out_before.len() as int;
            assert(out@ == out_before.push(d));
            assert(out@[new_len] == d);
            assert(d->Zip_1 == popped_zip_archive);
            assert((d->Zip_0)@ == regular_file_names@);
            assert(describes_archive(d, names0, sizes0, bytes0));
            assert(is_zip_descriptor(d));
            // One descriptor per popped archive, one queued archive per
            // nested obligation: the balance holds.
            assert(out@.drop_last() =~= out_before);
            assert(out@.last() == d);
            assert(total_obligations(out@) == total_obligations(out_before) + nested_zip_count(
                names0,
                bytes0,
            ));
            assert forall|i: int|
                0 <= i < out@.len() implies is_zip_descriptor(#[trigger] out@[i]) by {
                if i < new_len {
                    assert(out@[i] == out_before[i]);
                }
            }
            // The root descriptor stands (and stays) first.
            if out_before.len() == 0 {
                assert(archive_matches(work_before[0], root_names, root_sizes, root_bytes));
                assert(names0 == root_names && sizes0 == root_sizes && bytes0 == root_bytes);
                assert(describes_archive(out@[0], root_names, root_sizes, root_bytes));
            } else {
                assert(out@[0] == out_before[0]);
            }
            // Every open nested-archive obligation is met by an emitted
            // descriptor or by an archive still queued for expansion.
            assert forall|i: int, k: int|
                #[trigger] nested_obligation(out@, i, k) implies ((exists|j: int|
                    0 <= j < out@.len() && describes_parsed(
                        #[trigger] out@[j],
                        nested_zip_buffer(out@, i, k),
                    )) || (exists|w: int|
                    0 <= w < zip_archive_deque@.len() && archive_matches_parsed(
                        #[trigger] zip_archive_deque@[w],
                        nested_zip_buffer(out@, i, k),
                    ))) by {
                if i < new_len {
                    assert(out@[i] == out_before[i]);
                    assert(nested_obligation(out_before, i, k));
                    assert(nested_zip_buffer(out@, i, k) == nested_zip_buffer(out_before, i, k));
                    let b = nested_zip_buffer(out_before, i, k);
                    if exists|j: int|
                        0 <= j < out_before.len() && describes_parsed(
                            #[trigger] out_before[j],
                            b,
                        ) {
                        let j = choose|j: int|
                            0 <= j < out_before.len() && describes_parsed(
                                #[trigger] out_before[j],
                                b,
                            );
                        assert(out@[j] == out_before[j]);
                        assert(describes_parsed(out@[j], b));
                    } else {
                        let w = choose|w: int|
                            0 <= w < work_before.len() && archive_matches_parsed(
                                #[trigger] work_before[w],
                                b,
                            );
                        if w == 0 {
                            // The queued archive was the one just expanded:
                            // its descriptor now stands at the end.
                            assert(archive_matches_parsed(work_before[0], b));
                            assert(names0 == zip_names_of(b) && sizes0 == zip_sizes_of(b)
                                && bytes0 == zip_bytes_of(b));
                            assert(describes_parsed(out@[new_len], b));
                        } else {
                            assert(work_mid[w - 1] == work_before[w]);
                            assert(zip_archive_deque@[w - 1] == work_mid[w - 1]);
                            assert(archive_matches_parsed(zip_archive_deque@[w - 1], b));
                        }
                    }
                } else {
                    // A fresh obligation of the descriptor just emitted: the
                    // nested-expansion pass queued a matching archive.
                    assert(i == new_len && out@[i] == d);
                    assert(is_nested_zip(names0, bytes0, k));
                    assert(nested_zip_buffer(out@, i, k) == bytes0[names0[k]]);
                    assert(0 <= k < n && is_nested_zip(names0, bytes0, k));
                }
            }
        }
    }
    proof {
        if out@.len() < u64::MAX {
            assert(zip_archive_deque@.len() == 0);
            assert(out@.len() == 1 + total_obligations(out@));
            assert forall|i: int, k: int|
                #[trigger] nested_obligation(out@, i, k) implies exists|j: int|
                0 <= j < out@.len() && describes_parsed(
                    #[trigger] out@[j],
                    nested_zip_buffer(out@, i, k),
                ) by {}
        }
    }
    out
}

/// The archive value holds exactly these contents.
pub open spec fn archive_matches(
    a: zip::read::ZipArchive<std::io::Cursor<Vec<u8>>>,
    names: Seq<Seq<char>>,
    sizes: Map<Seq<char>, nat>,
    bytes: Map<Seq<char>, Seq<u8>>,
) -> bool {
    &&& zip_names(a) == names
    &&& zip_sizes(a) == sizes
    &&& zip_bytes(a) == bytes
}

/// Parses an in-memory buffer and expands it as an archive; a buffer that
/// does not parse yields no descriptors, and one that parses is walked with
/// its own descriptor first.
pub fn get_file_names_from_zip_bytes(buf: Vec<u8>) -> (r: Vec<FileForIndex>)
    ensures
        forall|i: int| 0 <= i < r@.len() ==> is_zip_descriptor(#[trigger] r@[i]),
        !zip_parses(buf@) ==> r@.len() == 0,
        zip_parses(buf@) ==> r@.len() >= 1 && describes_parsed(r@[0], buf@),
        r@.len() < u64::MAX ==> covers_nested(r@),
        zip_parses(buf@) && r@.len() < u64::MAX ==> r@.len() == 1 + total_obligations(r@),
{
    match zip_parse(buf) {
        Some(zip_archive) => get_file_names_from_zip_archive(zip_archive),
        None => Vec::new(),
    }
}

/// The decoded content the reader takes from one listed entry: present
/// exactly when the entry's lookup succeeds, its declared size is under the
/// cap, its bytes are readable, and the lossy decoding is non-empty.
pub open spec fn entry_content(
    name: Seq<char>,
    sizes: Map<Seq<char>, nat>,
    bytes: Map<Seq<char>, Seq<u8>>,
) -> Option<Seq<char>> {
    if sizes.dom().contains(name) && sizes[name] < FILE_SIZE_LIMIT_BYTES as nat
        && bytes.dom().contains(name) && lossy_of(bytes[name]).len() > 0 {
        Some(lossy_of(bytes[name]))
    } else {
        None
    }
}

/// The contents the reader takes from these listed entries, in list order.
pub open spec fn contents_of_paths(
    paths: Seq<String>,
    sizes: Map<Seq<char>, nat>,
    bytes: Map<Seq<char>, Seq<u8>>,
) -> Seq<Seq<char>>
    decreases paths.len(),
{
    if paths.len() == 0 {
        Seq::empty()
    } else {
        let rest = contents_of_paths(paths.drop_last(), sizes, bytes);
        match entry_content(paths.last()@, sizes, bytes) {
            Some(c) => rest.push(c),
            None => rest,
        }
    }
}

/// Extracts the contents of the named entries of one archive, in order.  An
/// entry contributes its decoded text exactly when it is present, within
/// the size cap, readable, and decodes to non-empty text; every other entry
/// is skipped and the loop continues.
pub fn get_contents_from_zip_file(
    paths: &Vec<String>,
    zip_archive: &mut zip::read::ZipArchive<std::io::Cursor<Vec<u8>>>,
) -> (r: Vec<String>)
    ensures
        zip_names(*final(zip_archive)) == zip_names(*old(zip_archive)),
        zip_sizes(*final(zip_archive)) == zip_sizes(*old(zip_archive)),
        zip_bytes(*final(zip_archive)) == zip_bytes(*old(zip_archive)),
        r@.map_values(|s: String| s@) == contents_of_paths(
            paths@,
            zip_sizes(*old(zip_archive)),
            zip_bytes(*old(zip_archive)),
        ),
{
    let mut out: Vec<String> = Vec::new();
    let n = paths.len();
    let ghost sizes0 = zip_sizes(*zip_archive);
    let ghost bytes0 = zip_bytes(*zip_archive);
    proof {
        assert(paths@.take(0) =~= Seq::<String>::empty());
        assert(out@.map_values(|s: String| s@) =~= contents_of_paths(
            paths@.take(0),
            sizes0,
            bytes0,
        ));
    }
    for p in 0..n
        invariant
            n == paths@.len(),
            zip_names(*zip_archive) == zip_names(*old(zip_archive)),
            zip_sizes(*zip_archive) == sizes0,
            zip_bytes(*zip_archive) == bytes0,
            sizes0 == zip_sizes(*old(zip_archive)),
            bytes0 == zip_bytes(*old(zip_archive)),
            out@.map_values(|s: String| s@) == contents_of_paths(
                paths@.take(p as int),
                sizes0,
                bytes0,
            ),
    {
        proof {
            assert(paths@.take(p + 1).drop_last() =~= paths@.take(p as int));
            assert(paths@.take(p + 1).last() == paths@[p as int]);
        }
        match zip_entry_size(zip_archive, paths[p].as_str()) {
            None => {
                proof {
                    assert(!sizes0.dom().contains(paths@[p as int]@));
                    assert(entry_content(paths@[p as int]@, sizes0, bytes0) is None);
                }
            },
            Some(size) => {
                if size < FILE_SIZE_LIMIT_BYTES as u64 {
                    match zip_entry_bytes(zip_archive, paths[p].as_str()) {
                        None => {
                            proof {
                                assert(!bytes0.dom().contains(paths@[p as int]@));
                                assert(entry_content(paths@[p as int]@, sizes0, bytes0)
                                    is None);
                            }
                        },
                        Some(buf) => {
                            match content_from_bytes(&buf) {
                                None => {
                                    proof {
                                        assert(lossy_of(bytes0[paths@[p as int]@]).len()
                                            == 0);
                                        assert(entry_content(
                                            paths@[p as int]@,
                                            sizes0,
                                            bytes0,
                                        ) is None);
                                    }
                                },
                                Some(content) => {
                                    proof {
                                        assert(entry_content(paths@[p as int]@, sizes0, bytes0)
                                            == Some(content@));
                                    }
                                    out.push(content);
                                    proof {
                                        assert(out@.map_values(|s: String| s@)
                                            =~= contents_of_paths(
                                            paths@.take(p + 1),
                                            sizes0,
                                            bytes0,
                                        ));
                                    }
                                },
                            }
                        },
                    }
                } else {
                    proof {
                        assert(sizes0[paths@[p as int]@] >= FILE_SIZE_LIMIT_BYTES as nat);
                        assert(entry_content(paths@[p as int]@, sizes0, bytes0) is None);
                    }
                }
            },
        }
        proof {
            assert(out@.map_values(|s: String| s@) =~= contents_of_paths(
                paths@.take(p + 1),
                sizes0,
                bytes0,
            ));
        }
    }
    proof {
        assert(paths@.take(n as int) =~= paths@);
    }
    out
}

} // verus!
