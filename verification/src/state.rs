//! The routing cursor: a walk over one path's segment sequence with
//! capture slots and snapshot/restore for backtracking.
//!
//! Each segment carries an optional capture-slot id.  `skip` clears the
//! current segment's slot, `keep` assigns a freshly allocated id, and
//! `fuse` writes the current next-slot id without allocating, so that
//! consecutive `fuse` calls after one `keep` share a single slot.
//! `snapshot`/`go_to` save and restore only the positional counters;
//! slot assignments written in between are deliberately left in place,
//! and a matcher is expected to re-decide every segment from the
//! restored position before it reads the captured variables.

use crate::route::Route;
use vstd::prelude::*;
use vstd::slice::slice_index_get;
use vstd::std_specs::cmp::PartialEqSpec;

verus! {

broadcast use vstd::std_specs::vec::axiom_spec_len;

/// A state object for routing: a cursor over one path's segments.
#[derive(Clone)]
pub struct RouteState<'a> {
    route: Vec<&'a [u8]>,
    variables: Vec<Option<usize>>,
    index: usize,
    var_index: usize,
}

impl<'a> RouteState<'a> {
    /// The segment sequence being walked.
    pub closed spec fn segs(&self) -> Seq<Seq<u8>> {
        self.route.deep_view()
    }

    /// The capture-slot assignment of each segment.
    pub closed spec fn slots(&self) -> Seq<Option<usize>> {
        self.variables@
    }

    /// The current read position.
    pub closed spec fn pos(&self) -> usize {
        self.index
    }

    /// The next capture-slot id to allocate.
    pub closed spec fn next_slot(&self) -> usize {
        self.var_index
    }

    /// One slot assignment per segment.
    pub closed spec fn wf(&self) -> bool {
        self.variables@.len() == self.route@.len()
    }

    /// The positional part of the state, as `snapshot` returns it.
    pub closed spec fn snapshot_view(&self) -> (usize, usize) {
        (self.index, self.var_index)
    }

    /// The same state with its positional counters set from `snap`,
    /// as `go_to` leaves it: slot assignments are not touched.
    pub closed spec fn restored(self, snap: (usize, usize)) -> RouteState<'a> {
        RouteState { route: self.route, variables: self.variables, index: snap.0, var_index: snap.1 }
    }

    /// Build the cursor for a route: position and next slot id start at
    /// zero and every segment starts without a slot assignment.
    pub fn from_route<R: Route + ?Sized>(route: &'a R) -> (r: RouteState<'a>)
        ensures
            r.wf(),
            r.segs() == route.route_segments(),
            r.slots().len() == r.segs().len(),
            forall|i: int| 0 <= i < r.slots().len() ==> r.slots()[i] is None,
            r.pos() == 0,
            r.next_slot() == 0,
    {
        let segs = route.segments();
        let n = segs.len();
        let vars: Vec<Option<usize>> = vec![None; n];
        RouteState { route: segs, variables: vars, index: 0, var_index: 0 }
    }

    /// The current path segment, or `None` when the cursor is past the
    /// last one.
    pub fn get(&self) -> (r: Option<&'a [u8]>)
        ensures
            self.pos() < self.segs().len() ==> (r matches Some(seg) && seg@ == self.segs()[
                self.pos() as int
            ]),
            self.pos() >= self.segs().len() ==> r is None,
    {
        if self.index < self.route.len() {
            let seg = self.route[self.index];
            proof {
                assert(seg.deep_view() =~= seg@);
            }
            Some(seg)
        } else {
            None
        }
    }

    /// Don't include the current path segment in a variable: clear its
    /// slot and advance.
    pub fn skip(&mut self)
        requires
            old(self).wf(),
            old(self).pos() < old(self).segs().len(),
        ensures
            final(self).wf(),
            final(self).segs() == old(self).segs(),
            final(self).slots() == old(self).slots().update(old(self).pos() as int, None),
            final(self).pos() == old(self).pos() + 1,
            final(self).next_slot() == old(self).next_slot(),
    {
        proof {
            assert(self.route@.len() == vstd::std_specs::vec::spec_vec_len(&self.route));
        }
        self.variables[self.index] = None;
        self.index = self.index + 1;
    }

    /// Include the current path segment as a variable of its own: assign
    /// the freshly allocated slot id and advance.
    pub fn keep(&mut self)
        requires
            old(self).wf(),
            old(self).pos() < old(self).segs().len(),
            old(self).next_slot() < usize::MAX,
        ensures
            keep_step(*old(self), *final(self)),
    {
        let v_i = self.var_index;
        proof {
            assert(self.route@.len() == vstd::std_specs::vec::spec_vec_len(&self.route));
        }
        self.variables[self.index] = Some(v_i);
        self.index = self.index + 1;
        self.var_index = self.var_index + 1;
    }

    /// Extend a variable over the current path segment: write the current
    /// next-slot id without allocating, and advance.  After one `keep`,
    /// consecutive `fuse` calls share a single slot id.
    pub fn fuse(&mut self)
        requires
            old(self).wf(),
            old(self).pos() < old(self).segs().len(),
        ensures
            final(self).wf(),
            final(self).segs() == old(self).segs(),
            final(self).slots() == old(self).slots().update(
                old(self).pos() as int,
                Some(old(self).next_slot()),
            ),
            final(self).pos() == old(self).pos() + 1,
            final(self).next_slot() == old(self).next_slot(),
    {
        let v_i = self.var_index;
        proof {
            assert(self.route@.len() == vstd::std_specs::vec::spec_vec_len(&self.route));
        }
        self.variables[self.index] = Some(v_i);
        self.index = self.index + 1;
    }

    /// A snapshot of the positional part of the state.
    pub fn snapshot(&self) -> (r: (usize, usize))
        ensures
            r == self.snapshot_view(),
            r == (self.pos(), self.next_slot()),
    {
        (self.index, self.var_index)
    }

    /// Go to a previously recorded position: restore both counters and
    /// nothing else.
    pub fn go_to(&mut self, snapshot: (usize, usize))
        ensures
            *final(self) == old(self).restored(snapshot),
            final(self).wf() == old(self).wf(),
            final(self).segs() == old(self).segs(),
            final(self).slots() == old(self).slots(),
            final(self).pos() == snapshot.0,
            final(self).next_slot() == snapshot.1,
    {
        let (index, var_index) = snapshot;
        self.index = index;
        self.var_index = var_index;
    }

    /// Check if there are no more segments to consume.
    pub fn is_empty(&self) -> (r: bool)
        ensures
            r == (self.pos() == self.segs().len()),
    {
        self.index == self.route.len()
    }

    /// Assign names to the saved variables and return them as a mapping
    /// from name to value, each entry's name unique.  A segment counts
    /// only while its slot id carries a non-empty name; consecutive
    /// segments of one slot id are joined with a separator into one
    /// value; a later binding of a name already bound overwrites it.
    pub fn variables(&self, names: &[Vec<u8>]) -> (r: Vec<(Vec<u8>, Vec<u8>)>)
        requires
            self.wf(),
        ensures
            unique_names(r@),
            map_of(entry_views(r@)) == variable_map(
                self.segs(),
                self.slots(),
                names.deep_view(),
            ),
    {
        let ghost all_segs = self.segs();
        let ghost all_slots = self.slots();
        let ghost names_v = names.deep_view();
        let ghost all = named_pairs(all_segs, all_slots, names_v);
        let mut out: Vec<(Vec<u8>, Vec<u8>)> = Vec::new();
        let mut pending: Option<(usize, Vec<u8>, Vec<u8>)> = None;
        let ghost mut emitted: Seq<(usize, Seq<u8>)> = Seq::empty();
        let n = self.route.len();
        proof {
            assert(all_segs.skip(0) =~= all_segs);
            assert(all_slots.skip(0) =~= all_slots);
            assert(entry_views(out@) =~= Seq::<(Seq<u8>, Seq<u8>)>::empty());
            assert(named_bindings(emitted, names_v) =~= Seq::<(Seq<u8>, Seq<u8>)>::empty());
            assert(merge_pairs(all, None) =~= emitted + merge_pairs(all, pending_view(pending)));
        }
        let mut i: usize = 0;
        while i < n
            invariant
                self.wf(),
                n == self.route@.len(),
                0 <= i <= n,
                all_segs == self.segs(),
                all_slots == self.slots(),
                names_v == names.deep_view(),
                all == named_pairs(all_segs, all_slots, names_v),
                pending_named(pending, names_v),
                merge_pairs(all, None) == emitted + merge_pairs(
                    named_pairs(
                        all_segs.skip(i as int),
                        all_slots.skip(i as int),
                        names_v,
                    ),
                    pending_view(pending),
                ),
                unique_names(out@),
                map_of(entry_views(out@)) == map_of(named_bindings(emitted, names_v)),
            decreases n - i,
        {
            let ghost rem = named_pairs(all_segs.skip(i as int), all_slots.skip(i as int), names_v);
            let ghost rem_next = named_pairs(
                all_segs.skip(i as int + 1),
                all_slots.skip(i as int + 1),
                names_v,
            );
            proof {
                lemma_named_pairs_step(all_segs, all_slots, names_v, i as int);
                lemma_segs_index(self.route, i as int);
            }
            let slot = self.variables[i];
            let mut named: Option<usize> = None;
            match slot {
                Some(k) => {
                    if k < names.len() {
                        proof {
                            lemma_names_index(names, k as int);
                        }
                        if slice_index_get(names, k).len() > 0 {
                            named = Some(k);
                        }
                    }
                },
                None => {},
            }
            match named {
                None => {
                    proof {
                        assert(rem == rem_next);
                    }
                },
                Some(k) => {
                    let ghost pair = (k, all_segs[i as int]);
                    proof {
                        assert(rem == seq![pair] + rem_next);
                        assert(rem[0] == pair);
                        assert(rem.skip(1) =~= rem_next);
                    }
                    let seg: &[u8] = self.route[i];
                    let nm = slice_index_get(names, k);
                    pending = match pending {
                        None => {
                            let name = nm.clone();
                            let value = vstd::slice::slice_to_vec(seg);
                            proof {
                                assert(name@ =~= nm@);
                                assert(merge_pairs(rem, None) == merge_pairs(
                                    rem_next,
                                    Some(pair),
                                ));
                            }
                            Some((k, name, value))
                        },
                        Some((pk, pname, pval)) => {
                            if pk == k {
                                let ghost p = (pk, pval@);
                                let mut value = pval;
                                value.push(47u8);
                                value.extend_from_slice(seg);
                                proof {
                                    assert(value@ =~= p.1 + seq![crate::route::separator()]
                                        + pair.1);
                                    assert(merge_pairs(rem, Some(p)) == merge_pairs(
                                        rem_next,
                                        Some((p.0, p.1 + seq![crate::route::separator()] + pair.1)),
                                    ));
                                }
                                Some((pk, pname, value))
                            } else {
                                let ghost p = (pk, pval@);
                                let ghost pname_v = pname@;
                                proof {
                                    assert(merge_pairs(rem, Some(p)) == seq![p] + merge_pairs(
                                        rem_next,
                                        Some(pair),
                                    ));
                                }
                                insert_binding(&mut out, pname, pval);
                                proof {
                                    assert(named_bindings(emitted.push(p), names_v)
                                        =~= named_bindings(emitted, names_v).push(
                                        (names_v[pk as int], p.1),
                                    ));
                                    lemma_map_of_push(
                                        named_bindings(emitted, names_v),
                                        (names_v[pk as int], p.1),
                                    );
                                    assert(pname_v == names_v[pk as int]);
                                    let prev = emitted;
                                    emitted = emitted.push(p);
                                    assert(emitted + (merge_pairs(rem_next, Some(pair))) =~= prev
                                        + (seq![p] + merge_pairs(rem_next, Some(pair))));
                                }
                                let name = nm.clone();
                                let value = vstd::slice::slice_to_vec(seg);
                                proof {
                                    assert(name@ =~= nm@);
                                }
                                Some((k, name, value))
                            }
                        },
                    };
                },
            }
            i = i + 1;
        }
        proof {
            assert(all_segs.skip(n as int) =~= Seq::<Seq<u8>>::empty());
            assert(all_slots.skip(n as int) =~= Seq::<Option<usize>>::empty());
        }
        match pending {
            None => {
                proof {
                    assert(merge_pairs(all, None) =~= emitted);
                }
            },
            Some((pk, pname, pval)) => {
                let ghost p = (pk, pval@);
                let ghost pname_v = pname@;
                insert_binding(&mut out, pname, pval);
                proof {
                    assert(named_bindings(emitted.push(p), names_v) =~= named_bindings(
                        emitted,
                        names_v,
                    ).push((names_v[pk as int], p.1)));
                    lemma_map_of_push(named_bindings(emitted, names_v), (names_v[pk as int], p.1));
                    assert(pname_v == names_v[pk as int]);
                    emitted = emitted.push(p);
                    assert(merge_pairs(all, None) =~= emitted);
                }
            },
        }
        proof {
            assert(named_bindings(merge_pairs(all, None), names_v) =~= named_bindings(
                emitted,
                names_v,
            ));
        }
        out
    }
}

/// The (slot id, segment) pairs of the assigned segments, in path order,
/// restricted to slots that carry a non-empty name: exactly the entries
/// the variable merge works on.  An unassigned segment, a slot id past
/// the end of the name table and an empty name all mean "do not capture".
pub open spec fn named_pairs(
    segs: Seq<Seq<u8>>,
    slots: Seq<Option<usize>>,
    names: Seq<Seq<u8>>,
) -> Seq<(usize, Seq<u8>)>
    decreases segs.len(),
{
    if segs.len() == 0 {
        Seq::empty()
    } else {
        let rest = named_pairs(segs.skip(1), slots.skip(1), names);
        match slots[0] {
            Some(k) => if k < names.len() && names[k as int].len() > 0 {
                seq![(k, segs[0])] + rest
            } else {
                rest
            },
            None => rest,
        }
    }
}

/// One left-to-right pass over the named (slot, segment) pairs, with one
/// pending binding: a pair that continues the pending slot id appends a
/// separator and its segment to the pending value; any other pair
/// flushes the pending binding and becomes pending itself.
pub open spec fn merge_pairs(
    pairs: Seq<(usize, Seq<u8>)>,
    pending: Option<(usize, Seq<u8>)>,
) -> Seq<(usize, Seq<u8>)>
    decreases pairs.len(),
{
    match pending {
        None => if pairs.len() == 0 {
            Seq::empty()
        } else {
            merge_pairs(pairs.skip(1), Some(pairs[0]))
        },
        Some(p) => if pairs.len() == 0 {
            seq![p]
        } else if pairs[0].0 == p.0 {
            merge_pairs(pairs.skip(1), Some((p.0, p.1 + seq![crate::route::separator()] + pairs[0].1)))
        } else {
            seq![p] + merge_pairs(pairs.skip(1), Some(pairs[0]))
        },
    }
}

/// Each merged (slot, value) pair under the slot's name.
pub open spec fn named_bindings(
    merged: Seq<(usize, Seq<u8>)>,
    names: Seq<Seq<u8>>,
) -> Seq<(Seq<u8>, Seq<u8>)> {
    merged.map_values(|p: (usize, Seq<u8>)| (names[p.0 as int], p.1))
}

/// The bindings inserted in order into a mapping keyed by name: a later
/// binding overwrites an earlier one of the same name.
pub open spec fn map_of(bindings: Seq<(Seq<u8>, Seq<u8>)>) -> Map<Seq<u8>, Seq<u8>>
    decreases bindings.len(),
{
    if bindings.len() == 0 {
        Map::empty()
    } else {
        map_of(bindings.drop_last()).insert(bindings.last().0, bindings.last().1)
    }
}

/// The complete name-to-value mapping that `variables` returns, over the
/// mathematical state: filter the assigned-and-named segments, merge
/// consecutive pairs of equal slot id with a separator between segments,
/// name each merged value, and key the result by name.
pub open spec fn variable_map(
    segs: Seq<Seq<u8>>,
    slots: Seq<Option<usize>>,
    names: Seq<Seq<u8>>,
) -> Map<Seq<u8>, Seq<u8>> {
    map_of(named_bindings(merge_pairs(named_pairs(segs, slots, names), None), names))
}

/// The views of concrete name/value entries.
pub open spec fn entry_views(entries: Seq<(Vec<u8>, Vec<u8>)>) -> Seq<(Seq<u8>, Seq<u8>)> {
    entries.map_values(|e: (Vec<u8>, Vec<u8>)| (e.0@, e.1@))
}

/// A `deep_view` element of a segment vector is the segment's own view.
proof fn lemma_segs_index(v: Vec<&[u8]>, i: int)
    requires
        0 <= i < v@.len(),
    ensures
        v.deep_view()[i] == v@[i]@,
{
    assert(v@[i].deep_view() =~= v@[i]@);
}

/// A `deep_view` element of a name table is the name's own view.
proof fn lemma_names_index(v: &[Vec<u8>], i: int)
    requires
        0 <= i < v@.len(),
    ensures
        v.deep_view()[i] == v@[i]@,
{
    assert(v@[i].deep_view() =~= v@[i]@);
}

/// Unfolding `named_pairs` at position `i` of the full sequences.
proof fn lemma_named_pairs_step(
    segs: Seq<Seq<u8>>,
    slots: Seq<Option<usize>>,
    names: Seq<Seq<u8>>,
    i: int,
)
    requires
        0 <= i < segs.len(),
        slots.len() == segs.len(),
    ensures
        named_pairs(segs.skip(i), slots.skip(i), names) == (match slots[i] {
            Some(k) => if k < names.len() && names[k as int].len() > 0 {
                seq![(k, segs[i])] + named_pairs(segs.skip(i + 1), slots.skip(i + 1), names)
            } else {
                named_pairs(segs.skip(i + 1), slots.skip(i + 1), names)
            },
            None => named_pairs(segs.skip(i + 1), slots.skip(i + 1), names),
        }),
{
    assert(segs.skip(i).skip(1) =~= segs.skip(i + 1));
    assert(slots.skip(i).skip(1) =~= slots.skip(i + 1));
    assert(segs.skip(i)[0] == segs[i]);
    assert(slots.skip(i)[0] == slots[i]);
}

/// Appending one binding inserts its name last.
proof fn lemma_map_of_push(s: Seq<(Seq<u8>, Seq<u8>)>, e: (Seq<u8>, Seq<u8>))
    ensures
        map_of(s.push(e)) == map_of(s).insert(e.0, e.1),
{
    assert(s.push(e).drop_last() =~= s);
    assert(s.push(e).last() == e);
}

/// Overwriting the value of a key that occurs exactly once acts on the
/// mapping as inserting that key again.
proof fn lemma_map_of_update(s: Seq<(Seq<u8>, Seq<u8>)>, j: int, v: Seq<u8>)
    requires
        0 <= j < s.len(),
        forall|a: int, b: int| 0 <= a < b < s.len() ==> s[a].0 != s[b].0,
    ensures
        map_of(s.update(j, (s[j].0, v))) == map_of(s).insert(s[j].0, v),
    decreases s.len(),
{
    let t = s.update(j, (s[j].0, v));
    if j == s.len() - 1 {
        assert(t.drop_last() =~= s.drop_last());
        assert(t.last() == (s[j].0, v));
        assert(map_of(s).insert(s[j].0, v) =~= map_of(s.drop_last()).insert(s[j].0, v));
    } else {
        assert(t.drop_last() =~= s.drop_last().update(j, (s[j].0, v)));
        assert(forall|a: int, b: int|
            0 <= a < b < s.drop_last().len() ==> s.drop_last()[a].0 != s.drop_last()[b].0);
        assert(s.drop_last()[j] == s[j]);
        lemma_map_of_update(s.drop_last(), j, v);
        assert(t.last() == s.last());
        assert(s.last().0 != s[j].0);
        assert(map_of(s.drop_last()).insert(s[j].0, v).insert(s.last().0, s.last().1)
            =~= map_of(s.drop_last()).insert(s.last().0, s.last().1).insert(s[j].0, v));
    }
}

/// No two entries share a name.
pub open spec fn unique_names(entries: Seq<(Vec<u8>, Vec<u8>)>) -> bool {
    forall|a: int, b: int| 0 <= a < b < entries.len() ==> entries[a].0@ != entries[b].0@
}

/// Insert a binding into the name-keyed entry list: the value of an
/// existing entry of the same name is overwritten, any other binding is
/// appended.
fn insert_binding(out: &mut Vec<(Vec<u8>, Vec<u8>)>, name: Vec<u8>, value: Vec<u8>)
    requires
        unique_names(old(out)@),
    ensures
        unique_names(final(out)@),
        map_of(entry_views(final(out)@)) == map_of(entry_views(old(out)@)).insert(name@, value@),
{
    let ghost old_entries = entry_views(out@);
    let n = out.len();
    let mut j: usize = 0;
    while j < n
        invariant
            n == out@.len(),
            0 <= j <= n,
            *out == *old(out),
            unique_names(out@),
            forall|t: int| 0 <= t < j ==> out@[t].0@ != name@,
        decreases n - j,
    {
        let hit = out[j].0 == name;
        proof {
            if hit {
                assert(out@[j as int].0@ =~= name@);
            } else {
                if out@[j as int].0@ == name@ {
                    assert(out@[j as int].0.eq_spec(&name));
                    assert(false);
                }
            }
        }
        if hit {
            let ghost pre = entry_views(out@);
            out[j] = (name, value);
            proof {
                assert(entry_views(out@) =~= pre.update(j as int, (pre[j as int].0, value@)));
                lemma_map_of_update(pre, j as int, value@);
                assert(unique_names(out@));
            }
            return ;
        }
        j = j + 1;
    }
    out.push((name, value));
    proof {
        assert(entry_views(out@) =~= old_entries.push((name@, value@)));
        lemma_map_of_push(old_entries, (name@, value@));
        assert(unique_names(out@));
    }
}

/// The ghost (slot, value) content of the pending binding.
spec fn pending_view(p: Option<(usize, Vec<u8>, Vec<u8>)>) -> Option<(usize, Seq<u8>)> {
    match p {
        None => None,
        Some(q) => Some((q.0, q.2@)),
    }
}

/// The pending binding's name is the non-empty name of its slot.
spec fn pending_named(p: Option<(usize, Vec<u8>, Vec<u8>)>, names: Seq<Seq<u8>>) -> bool {
    match p {
        None => true,
        Some(q) => q.0 < names.len() && names[q.0 as int].len() > 0 && q.1@ == names[q.0 as int],
    }
}

/// With an empty name table nothing is captured: whatever was decided
/// about the segments, the final mapping is empty.
pub proof fn law_empty_names_empty_map(segs: Seq<Seq<u8>>, slots: Seq<Option<usize>>)
    ensures
        variable_map(segs, slots, Seq::empty()) == Map::<Seq<u8>, Seq<u8>>::empty(),
    decreases segs.len(),
{
    lemma_named_pairs_empty_names(segs, slots);
    assert(named_bindings(Seq::empty(), Seq::empty()) =~= Seq::<(Seq<u8>, Seq<u8>)>::empty());
    assert(variable_map(segs, slots, Seq::empty()) =~= Map::<Seq<u8>, Seq<u8>>::empty());
}

/// No name can be matched by any slot id when the name table is empty.
proof fn lemma_named_pairs_empty_names(segs: Seq<Seq<u8>>, slots: Seq<Option<usize>>)
    ensures
        named_pairs(segs, slots, Seq::empty()) == Seq::<(usize, Seq<u8>)>::empty(),
    decreases segs.len(),
{
    if segs.len() > 0 {
        lemma_named_pairs_empty_names(segs.skip(1), slots.skip(1));
    }
}

/// Exactly what one `keep` call does to the state: the current segment's
/// slot becomes the freshly allocated id, the position advances, and the
/// next free id moves past the one just handed out.
pub open spec fn keep_step(pre: RouteState, post: RouteState) -> bool {
    &&& post.wf()
    &&& post.segs() == pre.segs()
    &&& post.slots() == pre.slots().update(pre.pos() as int, Some(pre.next_slot()))
    &&& post.pos() == pre.pos() + 1
    &&& post.next_slot() == pre.next_slot() + 1
}

/// Taking a snapshot and restoring it at once is a no-op: `go_to` on the
/// pair `snapshot` just returned leaves the state exactly as it was.
pub proof fn law_go_to_snapshot_is_identity(s: RouteState)
    ensures
        s.restored(s.snapshot_view()) == s,
{
}

/// `is_empty` agrees with `get`: while the position has not run past the
/// segment count, `is_empty` is true exactly when `get` has nothing left
/// to return.
pub proof fn law_is_empty_iff_no_segment(s: RouteState)
    requires
        s.pos() <= s.segs().len(),
    ensures
        (s.pos() == s.segs().len()) <==> !(s.pos() < s.segs().len()),
{
}

/// Two `keep` calls in a row allocate distinct, strictly increasing slot
/// ids, and both assignments are still in place afterwards.
pub proof fn law_keep_allocates_increasing(s0: RouteState, s1: RouteState, s2: RouteState)
    requires
        s0.wf(),
        s0.pos() + 1 < s0.segs().len(),
        keep_step(s0, s1),
        keep_step(s1, s2),
    ensures
        s2.slots()[s0.pos() as int] == Some(s0.next_slot()),
        s2.slots()[s1.pos() as int] == Some(s1.next_slot()),
        s0.next_slot() < s1.next_slot(),
{
}

} // verus!
