use vstd::prelude::*;

use rustc_hash::FxHashSet;

use crate::gfa::{Link, LinkV, links_views, load_result, names_views};
use crate::misc::GfaError;

verus! {

/// Whether one application of the link `l` connects the start extremity of
/// the segment named `n`: the link's first endpoint does so on the reverse
/// strand, its second endpoint on the forward strand.
pub open spec fn removes_start(l: LinkV, n: Seq<u8>) -> bool {
    (l.strand_a != 1 && l.name_a == n) || (l.strand_b == 1 && l.name_b == n)
}

/// Whether one application of the link `l` connects the end extremity of
/// the segment named `n`: the link's first endpoint does so on the forward
/// strand, its second endpoint on the reverse strand.
pub open spec fn removes_end(l: LinkV, n: Seq<u8>) -> bool {
    (l.strand_a == 1 && l.name_a == n) || (l.strand_b != 1 && l.name_b == n)
}

/// Whether any link in `links` connects the start extremity of the segment
/// named `n`.
pub open spec fn start_connected(links: Seq<LinkV>, n: Seq<u8>) -> bool {
    exists|i: int| 0 <= i < links.len() && removes_start(links[i], n)
}

/// Whether any link in `links` connects the end extremity of the segment
/// named `n`.
pub open spec fn end_connected(links: Seq<LinkV>, n: Seq<u8>) -> bool {
    exists|i: int| 0 <= i < links.len() && removes_end(links[i], n)
}

/// The names of segments whose start extremity no link connects.
pub open spec fn dead_start_set(segments: Seq<Seq<u8>>, links: Seq<LinkV>) -> Set<Seq<u8>> {
    Set::new(|n: Seq<u8>| segments.contains(n) && !start_connected(links, n))
}

/// The names of segments whose end extremity no link connects.
pub open spec fn dead_end_set(segments: Seq<Seq<u8>>, links: Seq<LinkV>) -> Set<Seq<u8>> {
    Set::new(|n: Seq<u8>| segments.contains(n) && !end_connected(links, n))
}

/// The total number of unconnected extremities: dead starts plus dead
/// ends, each counted once per distinct segment name.
pub open spec fn dead_end_count(segments: Seq<Seq<u8>>, links: Seq<LinkV>) -> nat {
    dead_start_set(segments, links).len() + dead_end_set(segments, links).len()
}

/// Each dead set is a finite set of at most as many names as there are
/// segment records.
pub proof fn lemma_dead_sets_bounds(segments: Seq<Seq<u8>>, links: Seq<LinkV>)
    ensures
        dead_start_set(segments, links).finite(),
        dead_start_set(segments, links).len() <= segments.len(),
        dead_end_set(segments, links).finite(),
        dead_end_set(segments, links).len() <= segments.len(),
{
    vstd::seq_lib::seq_to_set_is_finite::<Seq<u8>>(segments);
    segments.lemma_cardinality_of_set();
    assert(dead_start_set(segments, links).subset_of(segments.to_set()));
    vstd::set_lib::lemma_len_subset(dead_start_set(segments, links), segments.to_set());
    assert(dead_end_set(segments, links).subset_of(segments.to_set()));
    vstd::set_lib::lemma_len_subset(dead_end_set(segments, links), segments.to_set());
}

/// Whether an extremity of `n` is connected by the first `k + 1` links
/// comes to whether the first `k` connect it or the link at `k` does.
proof fn lemma_connected_take_step(links: Seq<LinkV>, k: int, n: Seq<u8>)
    requires
        0 <= k < links.len(),
    ensures
        start_connected(links.take(k + 1), n) <==> (start_connected(links.take(k), n)
            || removes_start(links[k], n)),
        end_connected(links.take(k + 1), n) <==> (end_connected(links.take(k), n) || removes_end(
            links[k],
            n,
        )),
{
    let t1 = links.take(k + 1);
    let t0 = links.take(k);
    if start_connected(t1, n) {
        let i = choose|i: int| 0 <= i < t1.len() && removes_start(t1[i], n);
        if i < k {
            assert(removes_start(t0[i], n));
        } else {
            assert(removes_start(links[k], n));
        }
    }
    if start_connected(t0, n) {
        let i = choose|i: int| 0 <= i < t0.len() && removes_start(t0[i], n);
        assert(removes_start(t1[i], n));
    }
    if removes_start(links[k], n) {
        assert(removes_start(t1[k], n));
    }
    if end_connected(t1, n) {
        let i = choose|i: int| 0 <= i < t1.len() && removes_end(t1[i], n);
        if i < k {
            assert(removes_end(t0[i], n));
        } else {
            assert(removes_end(links[k], n));
        }
    }
    if end_connected(t0, n) {
        let i = choose|i: int| 0 <= i < t0.len() && removes_end(t0[i], n);
        assert(removes_end(t1[i], n));
    }
    if removes_end(links[k], n) {
        assert(removes_end(t1[k], n));
    }
}

/// Applying one more link shrinks each dead set by exactly the names whose
/// extremity that link connects.
proof fn lemma_dead_sets_step(segments: Seq<Seq<u8>>, links: Seq<LinkV>, k: int)
    requires
        0 <= k < links.len(),
    ensures
        dead_start_set(segments, links.take(k + 1)) == Set::new(
            |n: Seq<u8>|
                dead_start_set(segments, links.take(k)).contains(n) && !removes_start(
                    links[k],
                    n,
                ),
        ),
        dead_end_set(segments, links.take(k + 1)) == Set::new(
            |n: Seq<u8>|
                dead_end_set(segments, links.take(k)).contains(n) && !removes_end(links[k], n),
        ),
{
    assert forall|n: Seq<u8>| #[trigger]
        dead_start_set(segments, links.take(k + 1)).contains(n) <==> (dead_start_set(
            segments,
            links.take(k),
        ).contains(n) && !removes_start(links[k], n)) by {
        lemma_connected_take_step(links, k, n);
    }
    assert(dead_start_set(segments, links.take(k + 1)) =~= Set::new(
        |n: Seq<u8>|
            dead_start_set(segments, links.take(k)).contains(n) && !removes_start(links[k], n),
    ));
    assert forall|n: Seq<u8>| #[trigger]
        dead_end_set(segments, links.take(k + 1)).contains(n) <==> (dead_end_set(
            segments,
            links.take(k),
        ).contains(n) && !removes_end(links[k], n)) by {
        lemma_connected_take_step(links, k, n);
    }
    assert(dead_end_set(segments, links.take(k + 1)) =~= Set::new(
        |n: Seq<u8>|
            dead_end_set(segments, links.take(k)).contains(n) && !removes_end(links[k], n),
    ));
}

/// An element is in a pushed sequence exactly when it is in the sequence
/// or is the pushed element.
proof fn lemma_push_contains<A>(s: Seq<A>, e: A, x: A)
    ensures
        s.push(e).contains(x) <==> (s.contains(x) || x == e),
{
    if s.push(e).contains(x) {
        let i = choose|i: int| 0 <= i < s.push(e).len() && s.push(e)[i] == x;
        if i < s.len() {
            assert(s[i] == x);
        }
    }
    if s.contains(x) {
        let i = choose|i: int| 0 <= i < s.len() && s[i] == x;
        assert(s.push(e)[i] == x);
    }
    assert(s.push(e)[s.len() as int] == e);
}

/// Law: the dead-end count is never negative and never more than twice the
/// number of segment records, two extremities for each.
pub proof fn lemma_count_bounds(segments: Seq<Seq<u8>>, links: Seq<LinkV>)
    ensures
        0 <= dead_end_count(segments, links) <= 2 * segments.len(),
{
    lemma_dead_sets_bounds(segments, links);
}

/// Law: a segment that no link touches contributes exactly 2 to the
/// dead-end count — both its extremities stay dead. Stated of a fresh
/// name, since a repeated segment name collapses with its first
/// occurrence.
pub proof fn lemma_unlinked_segment_adds_two(
    segments: Seq<Seq<u8>>,
    links: Seq<LinkV>,
    n: Seq<u8>,
)
    requires
        !segments.contains(n),
        forall|i: int| 0 <= i < links.len() ==> links[i].name_a != n && links[i].name_b != n,
    ensures
        dead_end_count(segments.push(n), links) == dead_end_count(segments, links) + 2,
{
    assert(!start_connected(links, n));
    assert(!end_connected(links, n));
    assert forall|m: Seq<u8>| #[trigger]
        segments.push(n).contains(m) <==> (segments.contains(m) || m == n) by {
        lemma_push_contains(segments, n, m);
    }
    assert(dead_start_set(segments.push(n), links) =~= dead_start_set(segments, links).insert(n));
    assert(dead_end_set(segments.push(n), links) =~= dead_end_set(segments, links).insert(n));
    lemma_dead_sets_bounds(segments, links);
    assert(!dead_start_set(segments, links).contains(n));
    assert(!dead_end_set(segments, links).contains(n));
}

/// Whether an extremity is connected depends only on which links are
/// present, not on where they stand or how often.
proof fn lemma_connected_same_links(links1: Seq<LinkV>, links2: Seq<LinkV>, n: Seq<u8>)
    requires
        forall|l: LinkV| links1.contains(l) <==> links2.contains(l),
    ensures
        start_connected(links1, n) <==> start_connected(links2, n),
        end_connected(links1, n) <==> end_connected(links2, n),
{
    if start_connected(links1, n) {
        let i = choose|i: int| 0 <= i < links1.len() && removes_start(links1[i], n);
        assert(links1.contains(links1[i]));
        let j = choose|j: int| 0 <= j < links2.len() && links2[j] == links1[i];
        assert(removes_start(links2[j], n));
    }
    if start_connected(links2, n) {
        let i = choose|i: int| 0 <= i < links2.len() && removes_start(links2[i], n);
        assert(links2.contains(links2[i]));
        let j = choose|j: int| 0 <= j < links1.len() && links1[j] == links2[i];
        assert(removes_start(links1[j], n));
    }
    if end_connected(links1, n) {
        let i = choose|i: int| 0 <= i < links1.len() && removes_end(links1[i], n);
        assert(links1.contains(links1[i]));
        let j = choose|j: int| 0 <= j < links2.len() && links2[j] == links1[i];
        assert(removes_end(links2[j], n));
    }
    if end_connected(links2, n) {
        let i = choose|i: int| 0 <= i < links2.len() && removes_end(links2[i], n);
        assert(links2.contains(links2[i]));
        let j = choose|j: int| 0 <= j < links1.len() && links1[j] == links2[i];
        assert(removes_end(links1[j], n));
    }
}

/// Law: the order of the link records does not affect the dead-end count,
/// nor does repeating a record — two link sequences with the same members
/// count alike.
pub proof fn lemma_link_order_irrelevant(
    segments: Seq<Seq<u8>>,
    links1: Seq<LinkV>,
    links2: Seq<LinkV>,
)
    requires
        forall|l: LinkV| links1.contains(l) <==> links2.contains(l),
    ensures
        dead_end_count(segments, links1) == dead_end_count(segments, links2),
{
    assert forall|n: Seq<u8>|
        #![trigger start_connected(links1, n)]
        #![trigger end_connected(links1, n)]
        (start_connected(links1, n) <==> start_connected(links2, n)) && (end_connected(links1, n)
            <==> end_connected(links2, n)) by {
        lemma_connected_same_links(links1, links2, n);
    }
    assert(dead_start_set(segments, links1) =~= dead_start_set(segments, links2));
    assert(dead_end_set(segments, links1) =~= dead_end_set(segments, links2));
}

/// Law: applying the same link twice yields the same count as applying it
/// once — removal from a set is idempotent.
pub proof fn lemma_duplicate_link_idempotent(segments: Seq<Seq<u8>>, links: Seq<LinkV>, l: LinkV)
    ensures
        dead_end_count(segments, links.push(l).push(l)) == dead_end_count(
            segments,
            links.push(l),
        ),
{
    assert forall|m: LinkV| #[trigger]
        links.push(l).push(l).contains(m) <==> links.push(l).contains(m) by {
        lemma_push_contains(links.push(l), l, m);
        lemma_push_contains(links, l, m);
    }
    lemma_link_order_irrelevant(segments, links.push(l).push(l), links.push(l));
}

/// The dead-end count of a whole GFA file: what loading the bytes yields,
/// analyzed, or the error that loading stops on.
pub open spec fn file_dead_end_count(data: Seq<u8>) -> Result<nat, GfaError> {
    match load_result(data) {
        Ok(records) => Ok(dead_end_count(records.0, records.1)),
        Err(e) => Err(e),
    }
}

/// Law: the analysis is deterministic — any two runs over the same file
/// bytes come to the same count.
pub proof fn lemma_analysis_deterministic(data: Seq<u8>, c1: nat, c2: nat)
    requires
        file_dead_end_count(data) == Ok::<nat, GfaError>(c1),
        file_dead_end_count(data) == Ok::<nat, GfaError>(c2),
    ensures
        c1 == c2,
{
}

#[verifier::external_type_specification]
#[verifier::external_body]
pub struct ExFxBuildHasher(rustc_hash::FxBuildHasher);

/// What a hash set of segment names holds, as a set of byte sequences. Two
/// byte vectors are equal keys exactly when their bytes are equal, so the
/// contents are faithfully a set of byte sequences.
pub uninterp spec fn name_set_view(s: FxHashSet<Vec<u8>>) -> Set<Seq<u8>>;

/// Relies on `rustc_hash::FxHashSet` (std's `HashSet` with the crate's
/// `FxBuildHasher`): a defaulted set is empty.
#[verifier::external_body]
fn name_set_new() -> (s: FxHashSet<Vec<u8>>)
    ensures
        name_set_view(s) == Set::<Seq<u8>>::empty(),
{
    FxHashSet::default()
}

/// Relies on `HashSet::insert`, which `rustc_hash::FxHashSet` takes from
/// std: afterwards the set holds the new element beside all it held
/// before.
#[verifier::external_body]
fn name_set_insert(s: &mut FxHashSet<Vec<u8>>, name: Vec<u8>)
    ensures
        name_set_view(*final(s)) == name_set_view(*old(s)).insert(name@),
{
    s.insert(name);
}

/// Relies on `HashSet::remove`, which `rustc_hash::FxHashSet` takes from
/// std: afterwards the set holds all it held before but the element, and
/// removing an absent element changes nothing.
#[verifier::external_body]
fn name_set_remove(s: &mut FxHashSet<Vec<u8>>, name: &Vec<u8>)
    ensures
        name_set_view(*final(s)) == name_set_view(*old(s)).remove(name@),
{
    s.remove(name);
}

/// Relies on `HashSet::len`, which `rustc_hash::FxHashSet` takes from std:
/// the number of elements the set holds.
#[verifier::external_body]
fn name_set_len(s: &FxHashSet<Vec<u8>>) -> (r: usize)
    requires
        name_set_view(*s).finite(),
    ensures
        r == name_set_view(*s).len(),
{
    s.len()
}

/// Counts the unconnected segment extremities of the graph the loader
/// produced. Every segment begins with a dead start and a dead end; each
/// link then connects one extremity of each of its two endpoints, chosen
/// by the strand signs; what remains is the dead-end count.
pub fn count_dead_ends(segments: &Vec<Vec<u8>>, links: &Vec<Link>) -> (r: usize)
    requires
        2 * segments@.len() <= usize::MAX,
    ensures
        r as nat == dead_end_count(names_views(segments@), links_views(links@)),
{
    let ghost names = names_views(segments@);
    let ghost links_v = links_views(links@);

    // Each segment initially gets a dead start and a dead end.
    let mut dead_starts = name_set_new();
    let mut dead_ends = name_set_new();
    let mut i: usize = 0;
    proof {
        assert(names.take(0) =~= Seq::<Seq<u8>>::empty());
        assert(name_set_view(dead_starts) =~= names.take(0).to_set());
    }
    while i < segments.len()
        invariant
            0 <= i as int <= segments@.len(),
            names == names_views(segments@),
            name_set_view(dead_starts) == names.take(i as int).to_set(),
            name_set_view(dead_ends) == names.take(i as int).to_set(),
            name_set_view(dead_starts).finite(),
        decreases segments@.len() - i as int,
    {
        let for_starts = vstd::slice::slice_to_vec(segments[i].as_slice());
        let for_ends = vstd::slice::slice_to_vec(segments[i].as_slice());
        proof {
            assert(names.take(i as int + 1) =~= names.take(i as int) + seq![names[i as int]]);
            Seq::lemma_to_set_insert_commutes(names.take(i as int), names[i as int]);
        }
        name_set_insert(&mut dead_starts, for_starts);
        name_set_insert(&mut dead_ends, for_ends);
        i = i + 1;
    }
    proof {
        assert(names.take(i as int) =~= names);
        assert(dead_start_set(names, links_v.take(0)) =~= names.to_set());
        assert(dead_end_set(names, links_v.take(0)) =~= names.to_set());
    }

    // Then dead starts/ends are removed based on the links.
    let mut k: usize = 0;
    while k < links.len()
        invariant
            0 <= k as int <= links@.len(),
            names == names_views(segments@),
            links_v == links_views(links@),
            name_set_view(dead_starts) == dead_start_set(names, links_v.take(k as int)),
            name_set_view(dead_ends) == dead_end_set(names, links_v.take(k as int)),
            name_set_view(dead_starts).finite(),
            name_set_view(dead_ends).finite(),
        decreases links@.len() - k as int,
    {
        let ghost pre_starts = name_set_view(dead_starts);
        let ghost pre_ends = name_set_view(dead_ends);
        let link = &links[k];
        proof {
            assert(link@ == links_v[k as int]);
        }
        if link.strand_a == 1 {
            name_set_remove(&mut dead_ends, &link.name_a);
        } else {  // link.strand_a == -1
            name_set_remove(&mut dead_starts, &link.name_a);
        }
        if link.strand_b == 1 {
            name_set_remove(&mut dead_starts, &link.name_b);
        } else {  // link.strand_b == -1
            name_set_remove(&mut dead_ends, &link.name_b);
        }
        proof {
            let l = links_v[k as int];
            lemma_dead_sets_step(names, links_v, k as int);
            assert(name_set_view(dead_starts) =~= Set::new(
                |n: Seq<u8>| pre_starts.contains(n) && !removes_start(l, n),
            ));
            assert(name_set_view(dead_ends) =~= Set::new(
                |n: Seq<u8>| pre_ends.contains(n) && !removes_end(l, n),
            ));
        }
        k = k + 1;
    }
    proof {
        assert(links_v.take(k as int) =~= links_v);
        lemma_dead_sets_bounds(names, links_v);
        assert(names.len() == segments@.len());
    }
    let dead_start_total = name_set_len(&dead_starts);
    let dead_end_total = name_set_len(&dead_ends);
    dead_start_total + dead_end_total
}

} // verus!

