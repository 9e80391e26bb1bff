//! Selection and installation of a rule file.
//!
//! A store directory is modelled as the outcome of looking it up: absent from
//! the command line, missing on disk, unreadable, or a listing of its direct
//! entries. Candidates are the regular files whose extension is exactly `md`,
//! presented in lexicographic order of their names. Installing resolves the
//! selected candidate and yields a plan: the fixed target path below the
//! project root together with the full content to write there.

use vstd::prelude::*;
use vstd::relations::sorted_by;
use vstd::seq_lib::lemma_sorted_unique;
use vstd::multiset::Multiset;
use crate::bytes::{lex_le, lex_leq, views_of, bytes_le, bytes_eq, clone_bytes};
use crate::bytes::{lemma_lex_leq_total_ordering, lemma_lex_le_transitive, lemma_lex_le_connected};
use crate::bytes::lemma_lex_le_reflexive;
use crate::locator::github_dir_name;

verus! {

broadcast use vstd::seq_lib::group_to_multiset_ensures, vstd::multiset::group_multiset_axioms;

/// One direct entry of the store directory: its base name, whether it is a
/// regular file, and (for regular files) its text content as bytes.
pub struct StoreEntry {
    pub name: Vec<u8>,
    pub is_file: bool,
    pub content: Vec<u8>,
}

/// The outcome of looking up the store directory.
pub enum StoreLookup {
    /// No store directory was given on the command line.
    NotGiven,
    /// The given store path does not exist.
    Missing,
    /// The store directory could not be enumerated.
    Unreadable,
    /// The direct entries of the store directory, in any order.
    Found(Vec<StoreEntry>),
}

/// The failure taxonomy of a run. Every failure is terminal; nothing is
/// retried.
#[derive(Clone, Copy, Debug, PartialEq, Eq, Structural)]
pub enum InstallError {
    /// Walking the ancestors of the starting directory failed unexpectedly.
    RootLocateFailure,
    /// No store directory was given: the default behavior is deliberately
    /// unimplemented and must fail rather than guess.
    UnimplementedDefault,
    /// The given store path does not exist.
    StoreNotFound,
    /// The store directory could not be enumerated.
    StoreReadFailure,
    /// The store directory contains no qualifying file.
    NoCandidates,
    /// The selection prompt could not complete.
    InteractionFailure,
    /// The selected file could not be read.
    FileReadFailure,
    /// The target's parent directory could not be created.
    DirectoryCreateFailure,
    /// The target file could not be written.
    FileWriteFailure,
}

/// The description of the step that an error reports as failed.
pub open spec fn message_of(e: InstallError) -> Seq<char> {
    match e {
        InstallError::RootLocateFailure => "could not determine the project root directory"@,
        InstallError::UnimplementedDefault => "no store directory was given and no default behavior is implemented"@,
        InstallError::StoreNotFound => "the given store directory does not exist"@,
        InstallError::StoreReadFailure => "the store directory could not be read"@,
        InstallError::NoCandidates => "the store directory contains no md files"@,
        InstallError::InteractionFailure => "the file selection could not be completed"@,
        InstallError::FileReadFailure => "the selected file could not be read"@,
        InstallError::DirectoryCreateFailure => "the target directory could not be created"@,
        InstallError::FileWriteFailure => "the rule file could not be written"@,
    }
}

impl InstallError {
    /// A one-line human-readable description of the failing step.
    pub fn describe(&self) -> (s: &'static str)
        ensures
            s@ == message_of(*self),
    {
        match self {
            InstallError::RootLocateFailure => "could not determine the project root directory",
            InstallError::UnimplementedDefault => "no store directory was given and no default behavior is implemented",
            InstallError::StoreNotFound => "the given store directory does not exist",
            InstallError::StoreReadFailure => "the store directory could not be read",
            InstallError::NoCandidates => "the store directory contains no md files",
            InstallError::InteractionFailure => "the file selection could not be completed",
            InstallError::FileReadFailure => "the selected file could not be read",
            InstallError::DirectoryCreateFailure => "the target directory could not be created",
            InstallError::FileWriteFailure => "the rule file could not be written",
        }
    }
}

/// What a successful run writes: the target path, as components below the
/// filesystem root, and the full content of the target file.
pub struct InstallPlan {
    pub target: Vec<Vec<u8>>,
    pub content: Vec<u8>,
}

/// Whether a file name has extension exactly `md`: it ends in the three
/// bytes `.md` and has at least one byte before that dot, so that the dot is
/// not the leading byte of the name.
pub open spec fn is_md_name(name: Seq<u8>) -> bool {
    &&& name.len() >= 4
    &&& name[name.len() - 3] == 46u8
    &&& name[name.len() - 2] == 109u8
    &&& name[name.len() - 1] == 100u8
}

/// Whether a store entry qualifies as a candidate: a regular file whose
/// extension is exactly `md`.
pub open spec fn is_candidate(e: StoreEntry) -> bool {
    e.is_file && is_md_name(e.name@)
}

/// `is_candidate` packaged as a predicate value, for use with `Seq::filter`.
pub open spec fn candidate_pred() -> spec_fn(StoreEntry) -> bool {
    |e: StoreEntry| is_candidate(e)
}

/// The name of a store entry, as a predicate value for `Seq::map_values`.
pub open spec fn entry_name() -> spec_fn(StoreEntry) -> Seq<u8> {
    |e: StoreEntry| e.name@
}

/// The names of the qualifying entries, in listing order.
pub open spec fn candidate_names_of(es: Seq<StoreEntry>) -> Seq<Seq<u8>> {
    es.filter(candidate_pred()).map_values(entry_name())
}

/// The names of the qualifying entries in lexicographic order: the exact
/// sequence of candidates that is displayed, so that the same listing always
/// yields the same order and the same index resolves to the same file.
pub open spec fn displayed_candidates(es: Seq<StoreEntry>) -> Seq<Seq<u8>> {
    candidate_names_of(es).sort_by(lex_leq())
}

/// Decides whether a file name has extension exactly `md`.
pub fn md_name(name: &Vec<u8>) -> (r: bool)
    ensures
        r == is_md_name(name@),
{
    let n = name.len();
    if n < 4 {
        return false;
    }
    name[n - 3] == 46u8 && name[n - 2] == 109u8 && name[n - 1] == 100u8
}

/// Collects the names of the qualifying entries, in listing order.
fn filter_candidate_names(es: &Vec<StoreEntry>) -> (r: Vec<Vec<u8>>)
    ensures
        views_of(r@) == candidate_names_of(es@),
{
    let mut r: Vec<Vec<u8>> = Vec::new();
    let mut i: usize = 0;
    while i < es.len()
        invariant
            0 <= i <= es@.len(),
            views_of(r@) == candidate_names_of(es@.take(i as int)),
        decreases es@.len() - i,
    {
        let e = &es[i];
        proof {
            assert(es@.take(i + 1) =~= es@.take(i as int) + seq![es@[i as int]]);
            Seq::<StoreEntry>::filter_distributes_over_add(
                es@.take(i as int),
                seq![es@[i as int]],
                candidate_pred(),
            );
            reveal_with_fuel(Seq::<_>::filter, 3);
            assert(seq![es@[i as int]].drop_last() =~= Seq::<StoreEntry>::empty());
        }
        if e.is_file && md_name(&e.name) {
            let name = clone_bytes(&e.name);
            let ghost old_r = r@;
            r.push(name);
            proof {
                assert(candidate_pred()(es@[i as int]));
                assert(seq![es@[i as int]].filter(candidate_pred()) =~= seq![es@[i as int]]);
                assert(es@.take(i + 1).filter(candidate_pred()) == es@.take(i as int).filter(
                    candidate_pred(),
                ) + seq![es@[i as int]]);
                assert(name@ == es@[i as int].name@);
                assert(views_of(old_r) == candidate_names_of(es@.take(i as int)));
                assert(views_of(old_r).len() == old_r.len());
                assert(candidate_names_of(es@.take(i + 1)).len() == es@.take(i + 1).filter(
                    candidate_pred(),
                ).len());
                assert(views_of(r@).len() == candidate_names_of(es@.take(i + 1)).len());
                assert forall|j: int| 0 <= j < views_of(r@).len() implies views_of(r@)[j]
                    == candidate_names_of(es@.take(i + 1))[j] by {
                    if j < r@.len() - 1 {
                        assert(views_of(old_r)[j] == candidate_names_of(es@.take(i as int))[j]);
                    }
                }
                assert(views_of(r@) =~= candidate_names_of(es@.take(i + 1)));
            }
        } else {
            proof {
                assert(!candidate_pred()(es@[i as int]));
                assert(seq![es@[i as int]].filter(candidate_pred()) =~= Seq::<StoreEntry>::empty());
                assert(views_of(r@) =~= candidate_names_of(es@.take(i + 1)));
            }
        }
        i = i + 1;
    }
    proof {
        assert(es@.take(es@.len() as int) =~= es@);
    }
    r
}

/// The index of a least name, under the lexicographic order.
fn min_index(v: &Vec<Vec<u8>>) -> (m: usize)
    requires
        v@.len() > 0,
    ensures
        m < v@.len(),
        forall|k: int| 0 <= k < v@.len() ==> lex_le(v@[m as int]@, v@[k]@),
{
    let mut m: usize = 0;
    let mut i: usize = 1;
    proof {
        lemma_lex_le_reflexive(v@[0]@);
    }
    while i < v.len()
        invariant
            0 <= m < i <= v@.len(),
            forall|k: int| 0 <= k < i ==> lex_le(v@[m as int]@, v@[k]@),
        decreases v@.len() - i,
    {
        if bytes_le(&v[i], &v[m]) {
            proof {
                assert forall|k: int| 0 <= k < i + 1 implies lex_le(v@[i as int]@, v@[k]@) by {
                    if k < i {
                        lemma_lex_le_transitive(v@[i as int]@, v@[m as int]@, v@[k]@);
                    } else {
                        lemma_lex_le_reflexive(v@[i as int]@);
                    }
                }
            }
            m = i;
        } else {
            proof {
                lemma_lex_le_connected(v@[i as int]@, v@[m as int]@);
            }
        }
        i = i + 1;
    }
    m
}

/// Sorts a list of names into lexicographic order. The result is exactly the
/// specification-level sort of the input: the unique ordered arrangement of
/// the same names.
pub fn sort_names(names: Vec<Vec<u8>>) -> (r: Vec<Vec<u8>>)
    ensures
        views_of(r@) == views_of(names@).sort_by(lex_leq()),
        sorted_by(views_of(r@), lex_leq()),
        views_of(r@).to_multiset() == views_of(names@).to_multiset(),
{
    let ghost orig = views_of(names@);
    let mut v = names;
    let mut out: Vec<Vec<u8>> = Vec::new();
    proof {
        assert(views_of(out@) =~= Seq::<Seq<u8>>::empty());
        assert(views_of(out@).to_multiset().add(views_of(v@).to_multiset()) =~= orig.to_multiset());
    }
    while v.len() > 0
        invariant
            sorted_by(views_of(out@), lex_leq()),
            views_of(out@).to_multiset().add(views_of(v@).to_multiset()) == orig.to_multiset(),
            forall|a: int, b: int|
                0 <= a < out@.len() && 0 <= b < v@.len() ==> lex_le(out@[a]@, v@[b]@),
        decreases v@.len(),
    {
        let m = min_index(&v);
        let ghost old_v = v@;
        let ghost old_out = out@;
        let x = v.remove(m);
        out.push(x);
        proof {
            assert(views_of(v@) =~= views_of(old_v).remove(m as int));
            assert(views_of(out@) =~= views_of(old_out).push(x@));
            assert(views_of(old_v)[m as int] == x@);
            assert(views_of(old_v).contains(x@));
            assert(views_of(v@).to_multiset() =~= views_of(old_v).to_multiset().remove(x@));
            assert(views_of(out@).to_multiset() =~= views_of(old_out).to_multiset().insert(x@));
            assert(views_of(old_v).to_multiset().count(x@) >= 1);
            assert(views_of(out@).to_multiset().add(views_of(v@).to_multiset()) =~= views_of(
                old_out,
            ).to_multiset().add(views_of(old_v).to_multiset()));
            assert forall|a: int, b: int|
                0 <= a < b < views_of(out@).len() implies #[trigger] lex_leq()(
                views_of(out@)[a],
                views_of(out@)[b],
            ) by {
                if b == views_of(out@).len() - 1 {
                    assert(lex_le(old_out[a]@, old_v[m as int]@));
                }
            }
            assert(sorted_by(views_of(out@), lex_leq()));
        }
    }
    proof {
        assert(views_of(v@) =~= Seq::<Seq<u8>>::empty());
        assert(views_of(v@).to_multiset() =~= Multiset::<Seq<u8>>::empty());
        assert(views_of(out@).to_multiset() =~= orig.to_multiset());
        lemma_lex_leq_total_ordering();
        orig.lemma_sort_by_ensures(lex_leq());
        lemma_sorted_unique(views_of(out@), orig.sort_by(lex_leq()), lex_leq());
        assert(views_of(out@) =~= orig.sort_by(lex_leq()));
    }
    out
}

/// Produces the candidate list for a store lookup: the sorted names of the
/// qualifying entries, or the error that ends the run. Success is owed
/// exactly when a listing with at least one qualifying entry was found.
pub fn candidate_names(store: &StoreLookup) -> (r: Result<Vec<Vec<u8>>, InstallError>)
    ensures
        store matches StoreLookup::NotGiven ==> r matches Err(e) && e
            == InstallError::UnimplementedDefault,
        store matches StoreLookup::Missing ==> r matches Err(e) && e == InstallError::StoreNotFound,
        store matches StoreLookup::Unreadable ==> r matches Err(e) && e
            == InstallError::StoreReadFailure,
        store is Found && displayed_candidates(store->Found_0@).len() == 0 ==> (r matches Err(e)
            && e == InstallError::NoCandidates),
        store is Found && displayed_candidates(store->Found_0@).len() > 0 ==> (r matches Ok(v)
            && views_of(v@) == displayed_candidates(store->Found_0@)),
{
    match store {
        StoreLookup::NotGiven => Err(InstallError::UnimplementedDefault),
        StoreLookup::Missing => Err(InstallError::StoreNotFound),
        StoreLookup::Unreadable => Err(InstallError::StoreReadFailure),
        StoreLookup::Found(es) => {
            let names = filter_candidate_names(es);
            proof {
                lemma_lex_leq_total_ordering();
                candidate_names_of(es@).lemma_sort_by_ensures(lex_leq());
                assert(views_of(names@).len() == candidate_names_of(es@).len());
                candidate_names_of(es@).to_multiset_ensures();
                displayed_candidates(es@).to_multiset_ensures();
                assert(candidate_names_of(es@).to_multiset() == displayed_candidates(
                    es@,
                ).to_multiset());
                assert(candidate_names_of(es@).len() == displayed_candidates(es@).len());
            }
            if names.len() == 0 {
                Err(InstallError::NoCandidates)
            } else {
                Ok(sort_names(names))
            }
        },
    }
}

/// The content of the first entry with the given name, or the empty content
/// when no entry has it.
pub open spec fn lookup_content(es: Seq<StoreEntry>, name: Seq<u8>) -> Seq<u8>
    decreases es.len(),
{
    if es.len() == 0 {
        Seq::empty()
    } else if es[0].name@ == name {
        es[0].content@
    } else {
        lookup_content(es.drop_first(), name)
    }
}

/// Resolves a name back to the content of its entry.
fn content_for(es: &Vec<StoreEntry>, name: &Vec<u8>) -> (c: Vec<u8>)
    requires
        exists|i: int| 0 <= i < es@.len() && es@[i].name@ == name@,
    ensures
        c@ == lookup_content(es@, name@),
{
    let mut i: usize = 0;
    proof {
        assert(es@.skip(0) =~= es@);
    }
    while i < es.len()
        invariant
            0 <= i <= es@.len(),
            exists|j: int| 0 <= j < es@.len() && es@[j].name@ == name@,
            forall|j: int| 0 <= j < i ==> es@[j].name@ != name@,
            lookup_content(es@, name@) == lookup_content(es@.skip(i as int), name@),
        decreases es@.len() - i,
    {
        proof {
            assert(es@.skip(i as int)[0] == es@[i as int]);
            assert(es@.skip(i as int).drop_first() =~= es@.skip(i + 1));
        }
        if bytes_eq(&es[i].name, name) {
            return clone_bytes(&es[i].content);
        }
        i = i + 1;
    }
    proof {
        let j = choose|j: int| 0 <= j < es@.len() && es@[j].name@ == name@;
        assert(es@[j].name@ != name@);
        assert(false);
    }
    Vec::new()
}

/// An element of the filtered listing is an element of the listing.
proof fn lemma_filter_elem_in(s: Seq<StoreEntry>, k: int)
    requires
        0 <= k < s.filter(candidate_pred()).len(),
    ensures
        s.contains(s.filter(candidate_pred())[k]),
    decreases s.len(),
{
    reveal_with_fuel(Seq::<_>::filter, 2);
    let f = s.filter(candidate_pred());
    if s.len() > 0 {
        let dl = s.drop_last();
        if candidate_pred()(s.last()) && k == f.len() - 1 {
            assert(f[k] == s.last());
            assert(s.contains(s.last()));
        } else {
            lemma_filter_elem_in(dl, k);
            assert(f[k] == dl.filter(candidate_pred())[k]);
            let w = choose|w: int| 0 <= w < dl.len() && dl[w] == f[k];
            assert(s[w] == f[k]);
        }
    }
}

/// Every displayed candidate names some entry of the listing.
proof fn lemma_displayed_candidate_has_entry(es: Seq<StoreEntry>, j: int)
    requires
        0 <= j < displayed_candidates(es).len(),
    ensures
        exists|i: int| 0 <= i < es.len() && es[i].name@ == displayed_candidates(es)[j],
{
    let nm = displayed_candidates(es)[j];
    lemma_lex_leq_total_ordering();
    candidate_names_of(es).lemma_sort_by_ensures(lex_leq());
    assert(displayed_candidates(es).contains(nm));
    assert(candidate_names_of(es).to_multiset().count(nm) > 0);
    assert(candidate_names_of(es).contains(nm));
    let k = choose|k: int|
        0 <= k < candidate_names_of(es).len() && candidate_names_of(es)[k] == nm;
    let fe = es.filter(candidate_pred())[k];
    assert(fe.name@ == nm);
    lemma_filter_elem_in(es, k);
    let i = choose|i: int| 0 <= i < es.len() && es[i] == fe;
    assert(es[i].name@ == nm);
}

/// Installs the selected candidate: resolves the selection against the sorted
/// candidate list, reads the chosen entry's content, and yields the plan that
/// writes it at the fixed target path below the project root. Fails exactly
/// as `candidate_names` fails.
pub fn install(root: &Vec<Vec<u8>>, store: &StoreLookup, selection: usize) -> (r: Result<
    InstallPlan,
    InstallError,
>)
    requires
        store is Found && displayed_candidates(store->Found_0@).len() > 0 ==> (selection as int)
            < displayed_candidates(store->Found_0@).len(),
    ensures
        store matches StoreLookup::NotGiven ==> r matches Err(e) && e
            == InstallError::UnimplementedDefault,
        store matches StoreLookup::Missing ==> r matches Err(e) && e == InstallError::StoreNotFound,
        store matches StoreLookup::Unreadable ==> r matches Err(e) && e
            == InstallError::StoreReadFailure,
        store is Found && displayed_candidates(store->Found_0@).len() == 0 ==> (r matches Err(e)
            && e == InstallError::NoCandidates),
        store is Found && displayed_candidates(store->Found_0@).len() > 0 ==> (r matches Ok(p)
            && views_of(p.target@) == target_path_of(views_of(root@)) && p.content@
            == lookup_content(
            store->Found_0@,
            displayed_candidates(store->Found_0@)[selection as int],
        )),
{
    let cands = match candidate_names(store) {
        Err(e) => {
            return Err(e);
        },
        Ok(c) => c,
    };
    match store {
        StoreLookup::Found(es) => {
            let name = &cands[selection];
            proof {
                lemma_displayed_candidate_has_entry(es@, selection as int);
            }
            let content = content_for(es, name);
            let target = target_path(root);
            Ok(InstallPlan { target, content })
        },
        _ => {
            proof {
                assert(false);
            }
            Err(InstallError::UnimplementedDefault)
        },
    }
}

/// The bytes of `copilot-instructions.md`, the fixed name of the target file.
pub open spec fn target_file_name() -> Seq<u8> {
    seq![
        99u8, 111u8, 112u8, 105u8, 108u8, 111u8, 116u8, 45u8, 105u8, 110u8, 115u8, 116u8, 114u8,
        117u8, 99u8, 116u8, 105u8, 111u8, 110u8, 115u8, 46u8, 109u8, 100u8,
    ]
}

/// The fixed target path below the project root: `.github/copilot-instructions.md`.
pub open spec fn target_path_of(root: Seq<Seq<u8>>) -> Seq<Seq<u8>> {
    root + seq![github_dir_name(), target_file_name()]
}

/// Builds the fixed target path below the given project root.
pub fn target_path(root: &Vec<Vec<u8>>) -> (t: Vec<Vec<u8>>)
    ensures
        views_of(t@) == target_path_of(views_of(root@)),
{
    let mut t: Vec<Vec<u8>> = Vec::new();
    let mut i: usize = 0;
    while i < root.len()
        invariant
            0 <= i <= root@.len(),
            views_of(t@) == views_of(root@).take(i as int),
        decreases root@.len() - i,
    {
        let c = clone_bytes(&root[i]);
        let ghost old_t = t@;
        t.push(c);
        proof {
            assert(views_of(old_t) == views_of(root@).take(i as int));
            assert(views_of(old_t).len() == old_t.len());
            assert(views_of(t@).len() == views_of(root@).take(i + 1).len());
            assert forall|j: int| 0 <= j < views_of(t@).len() implies views_of(t@)[j] == views_of(
                root@,
            ).take(i + 1)[j] by {
                if j < t@.len() - 1 {
                    assert(views_of(old_t)[j] == views_of(root@).take(i as int)[j]);
                }
            }
            assert(views_of(t@) =~= views_of(root@).take(i + 1));
        }
        i = i + 1;
    }
    let gh: Vec<u8> = vec![46u8, 103u8, 105u8, 116u8, 104u8, 117u8, 98u8];
    let tf: Vec<u8> = vec![
        99u8, 111u8, 112u8, 105u8, 108u8, 111u8, 116u8, 45u8, 105u8, 110u8, 115u8, 116u8, 114u8,
        117u8, 99u8, 116u8, 105u8, 111u8, 110u8, 115u8, 46u8, 109u8, 100u8,
    ];
    proof {
        assert(gh@ =~= github_dir_name());
        assert(tf@ =~= target_file_name());
        assert(views_of(root@).take(root@.len() as int) =~= views_of(root@));
    }
    t.push(gh);
    t.push(tf);
    proof {
        assert(views_of(t@) =~= target_path_of(views_of(root@)));
    }
    t
}

/// The effect of a run on the files below the project root, as a map from
/// path to content: a successful run writes the plan's whole content at the
/// plan's target path, and a failed run writes nothing.
pub open spec fn apply_result(
    files: Map<Seq<Seq<u8>>, Seq<u8>>,
    r: Result<InstallPlan, InstallError>,
) -> Map<Seq<Seq<u8>>, Seq<u8>> {
    match r {
        Ok(p) => files.insert(views_of(p.target@), p.content@),
        Err(_) => files,
    }
}

/// A failed run creates and modifies nothing: the files are exactly as they
/// were.
pub proof fn lemma_failed_run_writes_nothing(
    files: Map<Seq<Seq<u8>>, Seq<u8>>,
    r: Result<InstallPlan, InstallError>,
)
    requires
        r matches Err(_),
    ensures
        apply_result(files, r) == files,
{
}

/// Re-running with another plan for the same target overwrites the target
/// file entirely: afterwards it holds exactly the second content, whatever
/// was written before, and every other path is untouched.
pub proof fn lemma_rerun_overwrites(
    files: Map<Seq<Seq<u8>>, Seq<u8>>,
    p1: InstallPlan,
    p2: InstallPlan,
)
    requires
        views_of(p1.target@) == views_of(p2.target@),
    ensures
        apply_result(apply_result(files, Result::<InstallPlan, InstallError>::Ok(p1)), Result::<
            InstallPlan,
            InstallError,
        >::Ok(p2)) == apply_result(files, Result::<InstallPlan, InstallError>::Ok(p2)),
        apply_result(apply_result(files, Result::<InstallPlan, InstallError>::Ok(p1)), Result::<
            InstallPlan,
            InstallError,
        >::Ok(p2))[views_of(p2.target@)] == p2.content@,
{
    let once = apply_result(files, Result::<InstallPlan, InstallError>::Ok(p1));
    let twice = apply_result(once, Result::<InstallPlan, InstallError>::Ok(p2));
    assert(twice =~= apply_result(files, Result::<InstallPlan, InstallError>::Ok(p2)));
}

} // verus!
