//! The stable-identity reconciliation engine.
//!
//! The engine owns the two host snapshots and four derived mappings:
//! item to display position, item to stable identity, stable identity to
//! registered label template, and stable identity to last known display
//! position. Every snapshot update runs one reconciliation pass and then
//! auto-relabels any templated stable identity whose position moved.

use vstd::prelude::*;
use crate::snapshot::{Group, Item, ItemGroup, eligible_map, eligible_pairs, items_of,
    pairs_of_list, lemma_eligible_map_positions};
use crate::vecmap::{VecMap, assoc_map, lemma_assoc_contains, lemma_assoc_key_present};
use crate::template::{TemplateFault, render_spec, render_ok, template_ok, render_template,
    lemma_render_value_independent};
use crate::numbers::{dec_seq, parse_u64, parse_u64_spec};

verus! {

/// A rename the host is asked to perform: the target is a stable identity
/// (or, in direct-position mode, a 1-indexed display position) and the
/// label is the fully rendered text.
#[derive(Debug, PartialEq, Eq)]
pub struct RenameAction {
    pub target: u64,
    pub label: String,
}

/// A rename request as decoded from the transport payload.
pub struct RenameRequest {
    /// The item identifier, as a string that must parse to an integer.
    pub item_id: String,
    /// The label template, with an optional `{tab_position}` placeholder.
    pub label_template: String,
    /// Stable-identity targeting (the default); `false` selects the
    /// fragile direct-position mode.
    pub use_stable_identity: bool,
}

/// What the transport delivered: no payload at all, a payload that is not
/// valid structured data, or a decoded request.
pub enum PipeInput {
    Missing,
    Malformed,
    Request(RenameRequest),
}

/// Why a rename request was rejected. No rejection mutates any state.
#[derive(Clone, Copy, Debug, PartialEq, Eq, Structural)]
pub enum RenameError {
    MissingPayload,
    MalformedRequest,
    InvalidIdentifier,
    UnknownItem,
    TemplateError(TemplateFault),
    NoStableIdentity,
}

/// A successful rename request: an action to deliver to the host, or a
/// no-op because the group already shows the rendered label.
#[derive(Debug, PartialEq, Eq)]
pub enum RenameOutcome {
    Renamed(RenameAction),
    NoOp,
}

/// Whether the value `sid` is bound to some item in `m`.
pub open spec fn has_stable(m: Map<u64, u64>, sid: u64) -> bool {
    exists|id: u64| m.contains_key(id) && m[id] == sid
}

/// All items bearing `sid` sit at display position `q`, and at least one
/// such item exists.
pub open spec fn bearers_agree(sm: Map<u64, u64>, pm: Map<u64, u64>, sid: u64, q: u64) -> bool {
    &&& has_stable(sm, sid)
    &&& forall|id: u64| sm.contains_key(id) && sm[id] == sid
        ==> pm.contains_key(id) && pm[id] == q
}

/// The action's label is the registered template of its target rendered at
/// some bearer's current 1-indexed display position.
pub open spec fn act_label_backed(
    sm: Map<u64, u64>,
    pm: Map<u64, u64>,
    tm: Map<u64, String>,
    act: RenameAction,
) -> bool {
    exists|idb: u64| sm.contains_key(idb) && sm[idb] == act.target && pm.contains_key(idb)
        && act.label@ == render_ok(tm[act.target]@, dec_seq(pm[idb] as nat + 1))
}

/// The candidate stack for position `p`: the eligible items of the current
/// snapshots, in enumeration order, that have no stable identity yet and
/// whose pair was enumerated at display position `p`.
pub open spec fn cand_seq(pairs: Seq<(u64, u64)>, sm: Map<u64, u64>, p: u64) -> Seq<u64>
    decreases pairs.len(),
{
    if pairs.len() == 0 {
        Seq::empty()
    } else {
        let rest = cand_seq(pairs.drop_last(), sm, p);
        if pairs.last().1 == p && !sm.contains_key(pairs.last().0) {
            rest.push(pairs.last().0)
        } else {
            rest
        }
    }
}

/// The list a map of candidate stacks holds at `p`, empty when absent.
pub open spec fn cand_list(m: Map<u64, Vec<u64>>, p: u64) -> Seq<u64> {
    if m.contains_key(p) {
        m[p]@
    } else {
        Seq::empty()
    }
}

/// The premise of the identity-persistence law: in this pass exactly one
/// item (`id_old`, bearing a stable identity, last seen at display
/// position `pp`) departed, and exactly one candidate (`id_new`, with no
/// stable identity yet) appeared, enumerated at that same position.
pub open spec fn lone_swap(
    pairs: Seq<(u64, u64)>,
    sm0: Map<u64, u64>,
    pm0: Map<u64, u64>,
    id_old: u64,
    id_new: u64,
    pp: u64,
) -> bool {
    let em = assoc_map(pairs);
    &&& sm0.contains_key(id_old)
    &&& !em.contains_key(id_old)
    &&& pm0.contains_key(id_old)
    &&& pm0[id_old] == pp
    &&& em.contains_key(id_new)
    &&& !sm0.contains_key(id_new)
    &&& forall|w: u64| sm0.contains_key(w) && !em.contains_key(w) ==> w == id_old
    &&& cand_seq(pairs, sm0, pp) == seq![id_new]
    &&& forall|q: u64| q != pp ==> cand_seq(pairs, sm0, q) == Seq::<u64>::empty()
}

/// What one full pass (reconciliation followed by auto-relabel) guarantees,
/// relative to the eligible pairs `pairs` of the snapshots being
/// reconciled (with eligible map `em == assoc_map(pairs)`) and the
/// previous pass's mappings (`pm0` the old position map) and allocator.
pub open spec fn pass_post(
    pairs: Seq<(u64, u64)>,
    pm0: Map<u64, u64>,
    em: Map<u64, u64>,
    sm0: Map<u64, u64>,
    tm0: Map<u64, String>,
    lp0: Map<u64, u64>,
    nx0: u64,
    post: Engine,
    acts: Seq<RenameAction>,
) -> bool {
    // The eligible map is the fold of the eligible pairs.
    &&& em == assoc_map(pairs)
    // Identity persistence under a lone swap: the one new item acquires
    // the one departed item's stable identity.
    &&& forall|id_old: u64, id_new: u64, pp: u64|
        #[trigger] lone_swap(pairs, sm0, pm0, id_old, id_new, pp)
        ==> post.stable_map().contains_key(id_new)
            && post.stable_map()[id_new] == sm0[id_old]
    // The position map is exactly the join of the snapshots.
    &&& post.pos_map() == em
    // Exactly the eligible items have a stable identity.
    &&& post.stable_map().dom() == em.dom()
    // A surviving item keeps its identity.
    &&& forall|id: u64| sm0.contains_key(id) && em.contains_key(id)
        ==> post.stable_map().contains_key(id) && post.stable_map()[id] == sm0[id]
    // The allocator never goes backwards.
    &&& nx0 <= post.allocator()
    // Every identity either existed before or is freshly allocated.
    &&& forall|id: u64| post.stable_map().contains_key(id)
        ==> has_stable(sm0, post.stable_map()[id]) || post.stable_map()[id] >= nx0
    // A template survives exactly while its identity keeps a bearer.
    &&& forall|sid: u64| post.template_map().contains_key(sid)
        <==> tm0.contains_key(sid) && has_stable(post.stable_map(), sid)
    &&& forall|sid: u64| post.template_map().contains_key(sid)
        ==> post.template_map()[sid] == tm0[sid]
    // A last known position changes only by an emitted rename.
    &&& forall|sid: u64| #[trigger] post.last_pos_map().contains_key(sid)
        ==> lp0.contains_key(sid)
            && (post.last_pos_map()[sid] == lp0[sid]
                || exists|k: int| 0 <= k < acts.len() && acts[k].target == sid)
    // Renames target templated identities, one each at most, and each
    // renders that identity's template at one of its bearers' current
    // 1-indexed display positions.
    &&& forall|k: int| 0 <= k < acts.len()
        ==> post.template_map().contains_key(#[trigger] acts[k].target)
    &&& forall|k1: int, k2: int| 0 <= k1 < k2 < acts.len() ==> acts[k1].target != acts[k2].target
    &&& forall|k: int| 0 <= k < acts.len() ==> act_label_backed(
        post.stable_map(),
        post.pos_map(),
        post.template_map(),
        #[trigger] acts[k],
    )
    // For a templated identity whose bearers agree on a position: exactly
    // one rename when the position moved, none when it did not.
    &&& forall|sid: u64, q: u64| post.template_map().contains_key(sid)
        && #[trigger] bearers_agree(post.stable_map(), post.pos_map(), sid, q)
        ==> if lp0.contains_key(sid) && lp0[sid] == q {
            &&& post.last_pos_map()[sid] == q
            &&& forall|k: int| 0 <= k < acts.len() ==> acts[k].target != sid
        } else {
            &&& post.last_pos_map().contains_key(sid)
            &&& post.last_pos_map()[sid] == q
            &&& exists|k: int| 0 <= k < acts.len() && acts[k].target == sid
                && acts[k].label@ == render_ok(post.template_map()[sid]@, dec_seq(q as nat + 1))
        }
    // When every eligible item already had an identity, nothing is
    // transferred, retired or allocated.
    &&& ((forall|id: u64| em.contains_key(id) ==> sm0.contains_key(id))
        ==> post.stable_map() == sm0.restrict(em.dom()) && post.allocator() == nx0)
}

/// What handling one rename request guarantees: the exact result and
/// state change for every input, clause by clause of the request's
/// resolution order.
pub open spec fn pipe_post(
    pre: Engine,
    post: Engine,
    input: PipeInput,
    r: Result<RenameOutcome, RenameError>,
) -> bool {
    match input {
        PipeInput::Missing => r == Err::<RenameOutcome, RenameError>(RenameError::MissingPayload)
            && same_state(pre, post),
        PipeInput::Malformed => r == Err::<RenameOutcome, RenameError>(
            RenameError::MalformedRequest,
        ) && same_state(pre, post),
        PipeInput::Request(req) => match parse_u64_spec(req.item_id@) {
            None => r == Err::<RenameOutcome, RenameError>(RenameError::InvalidIdentifier)
                && same_state(pre, post),
            Some(id) => if !pre.pos_map().contains_key(id) {
                r == Err::<RenameOutcome, RenameError>(RenameError::UnknownItem)
                    && same_state(pre, post)
            } else {
                let p = pre.pos_map()[id];
                match render_spec(req.label_template@, dec_seq(p as nat + 1)) {
                    Err(f) => r == Err::<RenameOutcome, RenameError>(RenameError::TemplateError(f))
                        && same_state(pre, post),
                    Ok(name) => if p < pre.groups_seq().len()
                        && pre.groups_seq()[p as int].label@ == name {
                        r == Ok::<RenameOutcome, RenameError>(RenameOutcome::NoOp)
                            && same_state(pre, post)
                    } else if req.use_stable_identity {
                        if !pre.stable_map().contains_key(id) {
                            r == Err::<RenameOutcome, RenameError>(RenameError::NoStableIdentity)
                                && same_state(pre, post)
                        } else {
                            &&& match r {
                                Ok(RenameOutcome::Renamed(act)) => act.target
                                    == pre.stable_map()[id] && act.label@ == name,
                                _ => false,
                            }
                            &&& registered(pre, post, pre.stable_map()[id], req.label_template@, p)
                        }
                    } else {
                        &&& match r {
                            Ok(RenameOutcome::Renamed(act)) => act.target == p + 1
                                && act.label@ == name,
                            _ => false,
                        }
                        &&& if pre.stable_map().contains_key(id) {
                            registered(pre, post, pre.stable_map()[id], req.label_template@, p)
                        } else {
                            same_state(pre, post)
                        }
                    },
                }
            },
        },
    }
}

/// The engine's observable state is unchanged.
pub open spec fn same_state(pre: Engine, post: Engine) -> bool {
    &&& post.groups_seq() == pre.groups_seq()
    &&& post.item_groups_seq() == pre.item_groups_seq()
    &&& post.pos_map() == pre.pos_map()
    &&& post.stable_map() == pre.stable_map()
    &&& post.template_map() == pre.template_map()
    &&& post.last_pos_map() == pre.last_pos_map()
    &&& post.allocator() == pre.allocator()
}

/// A successful rename request registered template `tpl` and position `p`
/// for stable identity `sid`, and changed nothing else.
pub open spec fn registered(pre: Engine, post: Engine, sid: u64, tpl: Seq<char>, p: u64) -> bool {
    &&& post.template_map().dom() == pre.template_map().dom().insert(sid)
    &&& post.template_map().contains_key(sid)
    &&& post.template_map()[sid]@ == tpl
    &&& forall|z: u64| z != sid && pre.template_map().contains_key(z)
        ==> post.template_map().contains_key(z)
            && post.template_map()[z] == pre.template_map()[z]
    &&& post.last_pos_map() == pre.last_pos_map().insert(sid, p)
    &&& post.groups_seq() == pre.groups_seq()
    &&& post.item_groups_seq() == pre.item_groups_seq()
    &&& post.pos_map() == pre.pos_map()
    &&& post.stable_map() == pre.stable_map()
    &&& post.allocator() == pre.allocator()
}

/// The reconciliation engine and all of its state.
pub struct Engine {
    groups: Vec<Group>,
    item_groups: Vec<ItemGroup>,
    item_to_pos: VecMap<u64>,
    item_to_stable: VecMap<u64>,
    templates: VecMap<String>,
    last_pos: VecMap<u64>,
    next_stable: u64,
}

impl Engine {
    /// The current group snapshot.
    pub closed spec fn groups_seq(&self) -> Seq<Group> {
        self.groups@
    }

    /// The current item snapshot.
    pub closed spec fn item_groups_seq(&self) -> Seq<ItemGroup> {
        self.item_groups@
    }

    /// The current item-to-display-position mapping.
    pub closed spec fn pos_map(&self) -> Map<u64, u64> {
        self.item_to_pos@
    }

    /// The current item-to-stable-identity mapping.
    pub closed spec fn stable_map(&self) -> Map<u64, u64> {
        self.item_to_stable@
    }

    /// The registered label templates by stable identity.
    pub closed spec fn template_map(&self) -> Map<u64, String> {
        self.templates@
    }

    /// The last known display position by stable identity.
    pub closed spec fn last_pos_map(&self) -> Map<u64, u64> {
        self.last_pos@
    }

    /// The next stable identity the allocator will hand out.
    pub closed spec fn allocator(&self) -> u64 {
        self.next_stable
    }

    /// The part of the invariant that survives a snapshot replacement
    /// (everything except agreement of the position map with the
    /// snapshots, which the following reconciliation pass restores).
    pub open spec fn wf_core(&self) -> bool {
        &&& self.stable_map().dom() == self.pos_map().dom()
        &&& forall|id: u64| self.stable_map().contains_key(id)
            ==> self.stable_map()[id] < self.allocator()
        &&& self.template_map().dom() == self.last_pos_map().dom()
        &&& forall|sid: u64| self.template_map().contains_key(sid)
            ==> has_stable(self.stable_map(), sid)
        &&& forall|sid: u64| self.template_map().contains_key(sid)
            ==> template_ok(self.template_map()[sid]@)
        &&& self.allocator() >= 1
    }

    /// The engine's invariant, established by `new` and preserved by every
    /// event handler.
    pub open spec fn wf(&self) -> bool {
        &&& self.wf_core()
        &&& self.pos_map() == eligible_map(self.groups_seq(), self.item_groups_seq())
    }

    /// A fresh engine: empty snapshots, empty mappings, allocator at 1.
    pub fn new() -> (e: Engine)
        ensures
            e.wf(),
            e.groups_seq() == Seq::<Group>::empty(),
            e.item_groups_seq() == Seq::<ItemGroup>::empty(),
            e.pos_map() == Map::<u64, u64>::empty(),
            e.stable_map() == Map::<u64, u64>::empty(),
            e.template_map() == Map::<u64, String>::empty(),
            e.last_pos_map() == Map::<u64, u64>::empty(),
            e.allocator() == 1,
    {
        let e = Engine {
            groups: Vec::new(),
            item_groups: Vec::new(),
            item_to_pos: VecMap::new(),
            item_to_stable: VecMap::new(),
            templates: VecMap::new(),
            last_pos: VecMap::new(),
            next_stable: 1,
        };
        proof {
            assert(eligible_map(e.groups@, e.item_groups@) =~= Map::<u64, u64>::empty());
            assert(e.stable_map().dom() =~= e.pos_map().dom());
            assert(e.template_map().dom() =~= e.last_pos_map().dom());
        }
        e
    }
}

impl Engine {
    /// One reconciliation pass (without auto-relabel): rebuilds the
    /// item-to-position mapping from the current snapshots, transfers
    /// stable identities from departed items to new items at the same
    /// position, retires identities that lost every bearer, and assigns
    /// identities to the remaining new items.
    #[verifier::loop_isolation(false)]
    #[verifier::rlimit(60)]
    fn reconcile(&mut self)
        requires
            old(self).wf_core(),
            old(self).allocator() as int + eligible_pairs(
                old(self).groups_seq(),
                old(self).item_groups_seq(),
            ).len() <= u64::MAX,
        ensures
            final(self).groups_seq() == old(self).groups_seq(),
            final(self).item_groups_seq() == old(self).item_groups_seq(),
            final(self).wf(),
            final(self).pos_map() == eligible_map(old(self).groups_seq(), old(self).item_groups_seq()),
            final(self).stable_map().dom() == final(self).pos_map().dom(),
            forall|id: u64| old(self).stable_map().contains_key(id)
                && eligible_map(old(self).groups_seq(), old(self).item_groups_seq()).contains_key(id)
                ==> final(self).stable_map().contains_key(id)
                    && final(self).stable_map()[id] == old(self).stable_map()[id],
            old(self).allocator() <= final(self).allocator(),
            forall|id: u64| final(self).stable_map().contains_key(id)
                ==> has_stable(old(self).stable_map(), final(self).stable_map()[id])
                    || final(self).stable_map()[id] >= old(self).allocator(),
            forall|sid: u64| final(self).template_map().contains_key(sid)
                <==> old(self).template_map().contains_key(sid)
                    && has_stable(final(self).stable_map(), sid),
            forall|sid: u64| final(self).template_map().contains_key(sid)
                ==> final(self).template_map()[sid] == old(self).template_map()[sid],
            forall|sid: u64| final(self).last_pos_map().contains_key(sid)
                ==> old(self).last_pos_map().contains_key(sid)
                    && final(self).last_pos_map()[sid] == old(self).last_pos_map()[sid],
            (forall|id: u64| eligible_map(
                old(self).groups_seq(),
                old(self).item_groups_seq(),
            ).contains_key(id) ==> old(self).stable_map().contains_key(id))
                ==> final(self).stable_map() == old(self).stable_map().restrict(
                    eligible_map(old(self).groups_seq(), old(self).item_groups_seq()).dom(),
                ) && final(self).allocator() == old(self).allocator(),
            forall|ido: u64, idn: u64, pp: u64| #[trigger] lone_swap(
                eligible_pairs(old(self).groups_seq(), old(self).item_groups_seq()),
                old(self).stable_map(),
                old(self).pos_map(),
                ido,
                idn,
                pp,
            ) ==> final(self).stable_map().contains_key(idn)
                && final(self).stable_map()[idn] == old(self).stable_map()[ido],
    {
        let ghost g0 = self.groups@;
        let ghost ig0 = self.item_groups@;
        let ghost sm0 = self.item_to_stable@;
        let ghost pm0 = self.item_to_pos@;
        let ghost tm0 = self.templates@;
        let ghost lp0 = self.last_pos@;
        let ghost nx0 = self.next_stable;
        let ghost em = eligible_map(g0, ig0);

        let elig = build_eligible(&self.groups, &self.item_groups);
        let new_pos = build_pos_map(&elig);
        let mut cands = build_candidates(&elig, &self.item_to_stable);
        let ks = self.item_to_stable.keys();
        let kn = ks.len();
        proof {
            assert forall|p: u64, j: int| 0 <= j < cand_list(cands@, p).len() implies {
                &&& !sm0.contains_key(cand_list(cands@, p)[j])
                &&& em.contains_key(cand_list(cands@, p)[j])
            } by {
                lemma_cand_seq_elements(elig@, sm0, p, j);
                let i = choose|i: int| 0 <= i < elig@.len() && elig@[i].0 == cand_list(cands@, p)[j]
                    && elig@[i].1 == p;
                lemma_assoc_key_present(elig@, i);
            }
        }

        // Detect departures and collect stable-identity transfers, popping
        // one candidate per departed item from that item's old position.
        let mut transfers: Vec<(u64, u64)> = Vec::new();
        let mut k: usize = 0;
        while k < kn
            invariant
                kn == ks@.len(),
                0 <= k <= kn,
                self.groups@ == g0,
                self.item_groups@ == ig0,
                self.item_to_stable@ == sm0,
                self.item_to_pos@ == pm0,
                self.templates@ == tm0,
                self.last_pos@ == lp0,
                self.next_stable == nx0,
                new_pos@ == em,
                forall|t: int| 0 <= t < transfers@.len() ==> {
                    &&& !sm0.contains_key(#[trigger] transfers@[t].0)
                    &&& em.contains_key(transfers@[t].0)
                    &&& has_stable(sm0, transfers@[t].1)
                },
                forall|p: u64, j: int| 0 <= j < cand_list(cands@, p).len() ==> {
                    &&& !sm0.contains_key(#[trigger] cand_list(cands@, p)[j])
                    &&& em.contains_key(cand_list(cands@, p)[j])
                },
                (forall|id: u64| em.contains_key(id) ==> sm0.contains_key(id))
                    ==> transfers@ == Seq::<(u64, u64)>::empty(),
                forall|ido: u64, idn: u64, pp: u64| #[trigger] lone_swap(
                    elig@,
                    sm0,
                    pm0,
                    ido,
                    idn,
                    pp,
                ) ==> {
                    &&& (forall|t2: int| 0 <= t2 < transfers@.len()
                        ==> transfers@[t2] == (idn, sm0[ido]))
                    &&& if ks@.take(k as int).contains(ido) {
                        transfers@.len() > 0
                    } else {
                        cand_list(cands@, pp) == seq![idn] && (forall|q: u64| q != pp
                            ==> cand_list(cands@, q) == Seq::<u64>::empty())
                    }
                },
            decreases kn - k,
        {
            let id = ks[k];
            proof {
                assert(assoc_map(elig@) == em);
            }
            if !new_pos.contains_key(id) {
                match self.item_to_pos.get(id) {
                    Some(pref) => {
                        let p = *pref;
                        let ghost cands_pre = cands@;
                        match cands.take(p) {
                            Some(mut lst) => {
                                proof {
                                    assert(lst@ == cand_list(cands_pre, p));
                                }
                                match lst.pop() {
                                    Some(nid) => {
                                        let ghost full = cand_list(cands_pre, p);
                                        proof {
                                            assert(lst@ == full.drop_last());
                                            assert(full[full.len() - 1] == nid);
                                            assert(!sm0.contains_key(nid));
                                            assert(em.contains_key(nid));
                                            assert(!(forall|q: u64| em.contains_key(q)
                                                ==> sm0.contains_key(q)));
                                        }
                                        let ghost transfers_pre = transfers@;
                                        match self.item_to_stable.get(id) {
                                            Some(sref) => {
                                                let sid = *sref;
                                                proof {
                                                    assert(sm0.contains_key(id) && sm0[id] == sid);
                                                    assert(has_stable(sm0, sid));
                                                }
                                                transfers.push((nid, sid));
                                                proof {
                                                    assert(transfers@[transfers@.len() - 1]
                                                        == (nid, sid));
                                                    assert forall|t2: int|
                                                        0 <= t2 < transfers@.len() implies {
                                                        &&& !sm0.contains_key(
                                                            #[trigger] transfers@[t2].0,
                                                        )
                                                        &&& em.contains_key(transfers@[t2].0)
                                                        &&& has_stable(sm0, transfers@[t2].1)
                                                    } by {
                                                        if t2 < transfers_pre.len() {
                                                            assert(transfers@[t2]
                                                                == transfers_pre[t2]);
                                                        }
                                                    }
                                                    assert forall|ido: u64, idn: u64, pp: u64|
                                                        #[trigger] lone_swap(
                                                        elig@,
                                                        sm0,
                                                        pm0,
                                                        ido,
                                                        idn,
                                                        pp,
                                                    ) implies {
                                                        &&& (forall|t2: int| 0 <= t2 < transfers@.len()
                                                            ==> transfers@[t2] == (idn, sm0[ido]))
                                                        &&& if ks@.take(k + 1).contains(ido) {
                                                            transfers@.len() > 0
                                                        } else {
                                                            cand_list(cands@, pp) == seq![idn] && (forall|q: u64| q != pp
                                                                ==> cand_list(cands@, q) == Seq::<u64>::empty())
                                                        }
                                                    } by {
                                                        assert(sm0.contains_key(id));
                                                        assert(!em.contains_key(id));
                                                        assert(id == ido);
                                                        assert(p == pp);
                                                        lemma_take_distinct(ks@, k as int);
                                                        assert(!ks@.take(k as int).contains(ido));
                                                        assert(cand_list(cands_pre, pp)
                                                            == seq![idn]);
                                                        assert(full == seq![idn]);
                                                        assert(nid == idn);
                                                        assert(sid == sm0[ido]);
                                                        lemma_take_step_hit(ks@, k as int);
                                                        assert(ks@.take(k + 1).contains(ido));
                                                        assert forall|t2: int|
                                                            0 <= t2 < transfers@.len()
                                                            implies transfers@[t2]
                                                                == (idn, sm0[ido]) by {
                                                            if t2 < transfers_pre.len() {
                                                                assert(transfers@[t2]
                                                                    == transfers_pre[t2]);
                                                            }
                                                        }
                                                    }
                                                }
                                            },
                                            None => {
                                                proof {
                                                    assert(sm0.contains_key(id));
                                                    assert(false);
                                                }
                                            },
                                        }
                                        let ghost lst_snap = lst@;
                                        cands.insert(p, lst);
                                        proof {
                                            assert(cands@[p]@ == lst_snap);
                                            assert forall|q: u64, j: int|
                                                0 <= j < cand_list(cands@, q).len() implies {
                                                &&& !sm0.contains_key(
                                                    #[trigger] cand_list(cands@, q)[j],
                                                )
                                                &&& em.contains_key(cand_list(cands@, q)[j])
                                            } by {
                                                if q == p {
                                                    assert(cand_list(cands@, q) == lst_snap);
                                                    assert(cand_list(cands@, q)[j] == full[j]);
                                                    assert(full[j] == cand_list(cands_pre, p)[j]);
                                                } else {
                                                    assert(cands@.contains_key(q)
                                                        == cands_pre.contains_key(q));
                                                    assert(cand_list(cands@, q)
                                                        == cand_list(cands_pre, q));
                                                }
                                            }
                                        }
                                    },
                                    None => {
                                        cands.insert(p, lst);
                                        proof {
                                            assert forall|q: u64, j: int|
                                                0 <= j < cand_list(cands@, q).len() implies {
                                                &&& !sm0.contains_key(
                                                    #[trigger] cand_list(cands@, q)[j],
                                                )
                                                &&& em.contains_key(cand_list(cands@, q)[j])
                                            } by {
                                                if q == p {
                                                    assert(cand_list(cands@, q)
                                                        =~= cand_list(cands_pre, p));
                                                } else {
                                                    assert(cand_list(cands@, q)
                                                        == cand_list(cands_pre, q));
                                                }
                                            }
                                            assert forall|ido: u64, idn: u64, pp: u64|
                                                #[trigger] lone_swap(
                                                elig@,
                                                sm0,
                                                pm0,
                                                ido,
                                                idn,
                                                pp,
                                            ) implies {
                                                &&& (forall|t2: int| 0 <= t2 < transfers@.len()
                                                    ==> transfers@[t2] == (idn, sm0[ido]))
                                                &&& if ks@.take(k + 1).contains(ido) {
                                                    transfers@.len() > 0
                                                } else {
                                                    cand_list(cands@, pp) == seq![idn] && (forall|q: u64| q != pp
                                                        ==> cand_list(cands@, q) == Seq::<u64>::empty())
                                                }
                                            } by {
                                                assert(sm0.contains_key(id));
                                                assert(!em.contains_key(id));
                                                assert(id == ido);
                                                assert(p == pp);
                                                lemma_take_distinct(ks@, k as int);
                                                assert(!ks@.take(k as int).contains(ido));
                                                assert(cand_list(cands_pre, pp) == seq![idn]);
                                                assert(seq![idn].len() == 1);
                                                assert(false);
                                            }
                                        }
                                    },
                                }
                            },
                            None => {
                                proof {
                                    assert(cands@ =~= cands_pre);
                                    assert forall|ido: u64, idn: u64, pp: u64|
                                        #[trigger] lone_swap(
                                        elig@,
                                        sm0,
                                        pm0,
                                        ido,
                                        idn,
                                        pp,
                                    ) implies {
                                        &&& (forall|t2: int| 0 <= t2 < transfers@.len()
                                            ==> transfers@[t2] == (idn, sm0[ido]))
                                        &&& if ks@.take(k + 1).contains(ido) {
                                            transfers@.len() > 0
                                        } else {
                                            cand_list(cands@, pp) == seq![idn] && (forall|q: u64| q != pp
                                                ==> cand_list(cands@, q) == Seq::<u64>::empty())
                                        }
                                    } by {
                                        assert(sm0.contains_key(id));
                                        assert(!em.contains_key(id));
                                        assert(id == ido);
                                        assert(p == pp);
                                        lemma_take_distinct(ks@, k as int);
                                        assert(!ks@.take(k as int).contains(ido));
                                        assert(cand_list(cands_pre, pp) == seq![idn]);
                                        assert(seq![idn].len() == 1);
                                        assert(!cands_pre.contains_key(p));
                                        assert(false);
                                    }
                                }
                            },
                        }
                    },
                    None => {
                        proof {
                            assert(sm0.contains_key(id));
                            assert(pm0.contains_key(id));
                            assert(false);
                        }
                    },
                }
            } else {
                proof {
                    assert forall|ido: u64, idn: u64, pp: u64| #[trigger] lone_swap(
                        elig@,
                        sm0,
                        pm0,
                        ido,
                        idn,
                        pp,
                    ) implies {
                        &&& (forall|t2: int| 0 <= t2 < transfers@.len()
                            ==> transfers@[t2] == (idn, sm0[ido]))
                        &&& if ks@.take(k + 1).contains(ido) {
                            transfers@.len() > 0
                        } else {
                            cand_list(cands@, pp) == seq![idn] && (forall|q: u64| q != pp
                                ==> cand_list(cands@, q) == Seq::<u64>::empty())
                        }
                    } by {
                        assert(em.contains_key(id));
                        assert(id != ido);
                        lemma_take_step_other(ks@, k as int, ido);
                    }
                }
            }
            k += 1;
        }

        // Apply the transfers: the departed item's identity moves to the
        // chosen candidate.
        proof {
            assert(ks@.take(kn as int) =~= ks@);
            assert forall|ido: u64, idn: u64, pp: u64| #[trigger] lone_swap(
                elig@,
                sm0,
                pm0,
                ido,
                idn,
                pp,
            ) implies transfers@.len() > 0 by {
                assert(sm0.contains_key(ido));
                assert(ks@.contains(ido));
            }
        }
        let tn = transfers.len();
        let mut t: usize = 0;
        while t < tn
            invariant
                tn == transfers@.len(),
                0 <= t <= tn,
                self.groups@ == g0,
                self.item_groups@ == ig0,
                self.item_to_pos@ == pm0,
                self.templates@ == tm0,
                self.last_pos@ == lp0,
                self.next_stable == nx0,
                forall|x: int| 0 <= x < transfers@.len() ==> {
                    &&& !sm0.contains_key(#[trigger] transfers@[x].0)
                    &&& em.contains_key(transfers@[x].0)
                    &&& has_stable(sm0, transfers@[x].1)
                },
                forall|id: u64| sm0.contains_key(id)
                    ==> self.item_to_stable@.contains_key(id)
                        && self.item_to_stable@[id] == sm0[id],
                forall|id: u64| #[trigger] self.item_to_stable@.contains_key(id)
                    ==> sm0.contains_key(id) || em.contains_key(id),
                forall|id: u64| #[trigger] self.item_to_stable@.contains_key(id)
                    ==> has_stable(sm0, self.item_to_stable@[id]),
                (forall|id: u64| em.contains_key(id) ==> sm0.contains_key(id))
                    ==> self.item_to_stable@ == sm0,
                forall|ido: u64, idn: u64, pp: u64| #[trigger] lone_swap(
                    elig@,
                    sm0,
                    pm0,
                    ido,
                    idn,
                    pp,
                ) ==> {
                    &&& transfers@.len() > 0
                    &&& (forall|t2: int| 0 <= t2 < transfers@.len()
                        ==> transfers@[t2] == (idn, sm0[ido]))
                    &&& (t > 0 ==> self.item_to_stable@.contains_key(idn)
                        && self.item_to_stable@[idn] == sm0[ido])
                },
            decreases tn - t,
        {
            let (nid, sid) = transfers[t];
            self.item_to_stable.insert(nid, sid);
            proof {
                assert forall|id: u64| sm0.contains_key(id)
                    implies self.item_to_stable@.contains_key(id)
                        && self.item_to_stable@[id] == sm0[id] by {
                    assert(id != nid);
                }
                assert forall|ido: u64, idn: u64, pp: u64| #[trigger] lone_swap(
                    elig@,
                    sm0,
                    pm0,
                    ido,
                    idn,
                    pp,
                ) implies self.item_to_stable@.contains_key(idn)
                    && self.item_to_stable@[idn] == sm0[ido] by {
                    assert(transfers@[t as int] == (idn, sm0[ido]));
                }
            }
            t += 1;
        }

        // Remove the entries of departed items that were not transferred,
        // remembering the stable identities they bore.
        let ghost sm_e = self.item_to_stable@;
        let mut removed: Vec<u64> = Vec::new();
        let mut k2: usize = 0;
        while k2 < kn
            invariant
                kn == ks@.len(),
                0 <= k2 <= kn,
                self.groups@ == g0,
                self.item_groups@ == ig0,
                self.item_to_pos@ == pm0,
                self.templates@ == tm0,
                self.last_pos@ == lp0,
                self.next_stable == nx0,
                new_pos@ == em,
                forall|i: int, j: int| 0 <= i < j < ks@.len() ==> ks@[i] != ks@[j],
                forall|i: int| 0 <= i < ks@.len() ==> sm0.contains_key(ks@[i]),
                forall|id: u64| sm0.contains_key(id) ==> ks@.contains(id),
                forall|id: u64| #[trigger] self.item_to_stable@.contains_key(id)
                    ==> sm_e.contains_key(id) && self.item_to_stable@[id] == sm_e[id],
                forall|id: u64| sm_e.contains_key(id) && em.contains_key(id)
                    ==> self.item_to_stable@.contains_key(id),
                forall|id: u64| sm_e.contains_key(id) && !sm0.contains_key(id)
                    ==> self.item_to_stable@.contains_key(id),
                forall|j: int| k2 <= j < kn && sm_e.contains_key(#[trigger] ks@[j])
                    ==> self.item_to_stable@.contains_key(ks@[j]),
                forall|j: int| 0 <= j < k2 && !em.contains_key(#[trigger] ks@[j])
                    ==> !self.item_to_stable@.contains_key(ks@[j]),
                forall|j: int| 0 <= j < k2 && !em.contains_key(#[trigger] ks@[j])
                    ==> removed@.contains(sm_e[ks@[j]]),
                forall|x: int| 0 <= x < removed@.len()
                    ==> has_stable(sm_e, #[trigger] removed@[x]),
            decreases kn - k2,
        {
            let id = ks[k2];
            proof {
                assert(sm0.contains_key(id));
                assert(sm_e.contains_key(id));
            }
            if !new_pos.contains_key(id) {
                let ghost pre = self.item_to_stable@;
                let ghost removed_pre = removed@;
                match self.item_to_stable.take(id) {
                    Some(sid) => {
                        removed.push(sid);
                        proof {
                            assert(pre.contains_key(id) && pre[id] == sm_e[id]);
                            assert(sm_e.contains_key(id) && sm_e[id] == sid);
                            assert(has_stable(sm_e, sid));
                            assert(removed@[removed@.len() - 1] == sm_e[ks@[k2 as int]]);
                            assert forall|j: int| 0 <= j < k2 + 1 && !em.contains_key(
                                #[trigger] ks@[j],
                            ) implies removed@.contains(sm_e[ks@[j]]) by {
                                if j < k2 {
                                    let x = choose|x: int| 0 <= x < removed_pre.len()
                                        && removed_pre[x] == sm_e[ks@[j]];
                                    assert(removed@[x] == sm_e[ks@[j]]);
                                } else {
                                    assert(removed@[removed@.len() - 1] == sm_e[ks@[j]]);
                                }
                            }
                            assert forall|x: int| 0 <= x < removed@.len()
                                implies has_stable(sm_e, #[trigger] removed@[x]) by {
                                if x < removed_pre.len() {
                                    assert(removed@[x] == removed_pre[x]);
                                }
                            }
                            assert forall|j: int| k2 + 1 <= j < kn && sm_e.contains_key(
                                #[trigger] ks@[j],
                            ) implies self.item_to_stable@.contains_key(ks@[j]) by {
                                assert(ks@[j] != ks@[k2 as int]);
                            }
                        }
                    },
                    None => {
                        proof {
                            assert(pre.contains_key(id));
                            assert(false);
                        }
                    },
                }
            }
            k2 += 1;
        }

        // Cascade cleanup: a stable identity that lost its last bearer is
        // permanently retired, together with its template and last known
        // position.
        let ghost sm_f = self.item_to_stable@;
        let rn = removed.len();
        let mut r: usize = 0;
        while r < rn
            invariant
                rn == removed@.len(),
                0 <= r <= rn,
                self.groups@ == g0,
                self.item_groups@ == ig0,
                self.item_to_pos@ == pm0,
                self.item_to_stable@ == sm_f,
                self.next_stable == nx0,
                forall|sid: u64| #[trigger] self.templates@.contains_key(sid)
                    ==> tm0.contains_key(sid) && self.templates@[sid] == tm0[sid],
                forall|sid: u64| #[trigger] self.last_pos@.contains_key(sid)
                    ==> lp0.contains_key(sid) && self.last_pos@[sid] == lp0[sid],
                self.templates@.dom() == self.last_pos@.dom(),
                forall|sid: u64| tm0.contains_key(sid) && !self.templates@.contains_key(sid)
                    ==> !has_stable(sm_f, sid),
                forall|j: int| 0 <= j < r && !has_stable(sm_f, #[trigger] removed@[j])
                    ==> !self.templates@.contains_key(removed@[j]),
            decreases rn - r,
        {
            let sid = removed[r];
            if !self.item_to_stable.contains_value(sid) {
                self.templates.take(sid);
                self.last_pos.take(sid);
                proof {
                    assert(self.templates@.dom() =~= self.last_pos@.dom());
                }
            }
            r += 1;
        }

        // Record the surviving (or transferred) identity of each occupied
        // display position, first writer wins.
        let ghost tm_c = self.templates@;
        let ghost lp_c = self.last_pos@;
        let en = elig.len();
        let mut pos2sid: VecMap<u64> = VecMap::new();
        let mut x: usize = 0;
        while x < en
            invariant
                en == elig@.len(),
                0 <= x <= en,
                self.item_to_stable@ == sm_f,
                forall|p: u64| #[trigger] pos2sid@.contains_key(p)
                    ==> has_stable(sm_f, pos2sid@[p]),
            decreases en - x,
        {
            let (id, p) = elig[x];
            match self.item_to_stable.get(id) {
                Some(sref) => {
                    let s = *sref;
                    if !pos2sid.contains_key(p) {
                        proof {
                            assert(sm_f.contains_key(id) && sm_f[id] == s);
                            assert(has_stable(sm_f, s));
                        }
                        pos2sid.insert(p, s);
                    }
                },
                None => {},
            }
            x += 1;
        }

        // Assign identities to the remaining new items, in enumeration
        // order: reuse the position's identity when one is known, allocate
        // a fresh one otherwise.
        let mut y: usize = 0;
        while y < en
            invariant
                0 <= y <= en,
                self.groups@ == g0,
                self.item_groups@ == ig0,
                self.item_to_pos@ == pm0,
                self.templates@ == tm_c,
                self.last_pos@ == lp_c,
                nx0 <= self.next_stable,
                self.next_stable as int <= nx0 + y,
                forall|id: u64| sm_f.contains_key(id)
                    ==> self.item_to_stable@.contains_key(id)
                        && self.item_to_stable@[id] == sm_f[id],
                forall|id: u64| #[trigger] self.item_to_stable@.contains_key(id)
                    ==> sm_f.contains_key(id) || em.contains_key(id),
                forall|j: int| 0 <= j < y
                    ==> self.item_to_stable@.contains_key(#[trigger] elig@[j].0),
                forall|id: u64| #[trigger] self.item_to_stable@.contains_key(id)
                    ==> has_stable(sm_f, self.item_to_stable@[id])
                        || (nx0 <= self.item_to_stable@[id]
                            && self.item_to_stable@[id] < self.next_stable),
                forall|p: u64| #[trigger] pos2sid@.contains_key(p)
                    ==> has_stable(sm_f, pos2sid@[p])
                        || (nx0 <= pos2sid@[p] < self.next_stable),
                (forall|id: u64| em.contains_key(id) ==> sm0.contains_key(id))
                    ==> self.item_to_stable@ == sm_f && self.next_stable == nx0,
            decreases en - y,
        {
            let (id, p) = elig[y];
            if !self.item_to_stable.contains_key(id) {
                proof {
                    lemma_assoc_key_present(elig@, y as int);
                    if forall|q: u64| em.contains_key(q) ==> sm0.contains_key(q) {
                        assert(em.contains_key(id));
                        assert(sm0.contains_key(id));
                        assert(sm_e.contains_key(id) && sm_e[id] == sm0[id]);
                        assert(self.item_to_stable@.contains_key(id));
                        assert(false);
                    }
                }
                let sid: u64;
                match pos2sid.get(p) {
                    Some(sref) => {
                        sid = *sref;
                    },
                    None => {
                        sid = self.next_stable;
                        self.next_stable = self.next_stable + 1;
                        pos2sid.insert(p, sid);
                    },
                }
                self.item_to_stable.insert(id, sid);
            }
            y += 1;
        }

        // Commit the rebuilt item-to-position mapping.
        self.item_to_pos = new_pos;

        proof {
            let smz = self.item_to_stable@;
            // The stable map's domain is exactly the eligible item set.
            assert(smz.dom() =~= em.dom()) by {
                assert forall|id: u64| em.contains_key(id) implies smz.contains_key(id) by {
                    lemma_assoc_contains(elig@, id);
                }
                assert forall|id: u64| smz.contains_key(id) implies em.contains_key(id) by {
                    if sm_f.contains_key(id) && !em.contains_key(id) {
                        assert(sm_e.contains_key(id));
                        if sm0.contains_key(id) {
                            let j = choose|j: int| 0 <= j < ks@.len() && ks@[j] == id;
                            assert(!sm_f.contains_key(ks@[j]));
                        }
                    }
                }
            }
            // Values are bounded by the allocator, and fresh ones are new.
            assert forall|id: u64| smz.contains_key(id) implies smz[id] < self.next_stable by {
                if has_stable(sm_f, smz[id]) {
                    let w = choose|w: u64| sm_f.contains_key(w) && sm_f[w] == smz[id];
                    assert(sm_e.contains_key(w) && sm_e[w] == smz[id]);
                    assert(sm_e[w] < nx0);
                }
            }
            assert forall|id: u64| smz.contains_key(id) implies has_stable(sm0, smz[id])
                || smz[id] >= nx0 by {
                if has_stable(sm_f, smz[id]) {
                    let w = choose|w: u64| sm_f.contains_key(w) && sm_f[w] == smz[id];
                    assert(sm_e.contains_key(w) && sm_e[w] == smz[id]);
                    assert(has_stable(sm0, sm_e[w]));
                }
            }
            // A kept template's stable identity still has a bearer, and a
            // dropped one has none.
            assert forall|sid: u64| self.templates@.contains_key(sid) implies has_stable(
                smz,
                sid,
            ) by {
                assert(tm0.contains_key(sid));
                assert(old(self).template_map().contains_key(sid));
                assert(has_stable(old(self).stable_map(), sid));
                assert(has_stable(sm0, sid));
                let id0 = choose|id: u64| sm0.contains_key(id) && sm0[id] == sid;
                assert(sm_e.contains_key(id0) && sm_e[id0] == sid);
                if sm_f.contains_key(id0) {
                    assert(smz.contains_key(id0) && smz[id0] == sid);
                } else {
                    assert(!em.contains_key(id0)) by {
                        if em.contains_key(id0) {
                            assert(sm_f.contains_key(id0));
                        }
                    }
                    let j = choose|j: int| 0 <= j < ks@.len() && ks@[j] == id0;
                    assert(removed@.contains(sm_e[ks@[j]]));
                    let x = choose|x: int| 0 <= x < removed@.len() && removed@[x] == sid;
                    if !has_stable(sm_f, sid) {
                        assert(!self.templates@.contains_key(removed@[x]));
                    }
                    let id1 = choose|id: u64| sm_f.contains_key(id) && sm_f[id] == sid;
                    assert(smz.contains_key(id1) && smz[id1] == sid);
                }
            }
            assert forall|sid: u64| tm0.contains_key(sid) && has_stable(smz, sid)
                implies self.templates@.contains_key(sid) by {
                if !self.templates@.contains_key(sid) {
                    assert(!has_stable(sm_f, sid));
                    let idw = choose|id: u64| smz.contains_key(id) && smz[id] == sid;
                    assert(old(self).template_map().contains_key(sid));
                    assert(has_stable(old(self).stable_map(), sid));
                    assert(has_stable(sm0, sid));
                    assert(sid < nx0) by {
                        let id0 = choose|id: u64| sm0.contains_key(id) && sm0[id] == sid;
                        assert(sm0[id0] < nx0);
                    }
                    assert(has_stable(sm_f, smz[idw]) || smz[idw] >= nx0);
                }
            }
            // A lone swap's transfer survives removal (the new item is
            // eligible) and assignment (pointwise preservation).
            assert forall|ido: u64, idn: u64, pp: u64| #[trigger] lone_swap(
                elig@,
                sm0,
                pm0,
                ido,
                idn,
                pp,
            ) implies smz.contains_key(idn) && smz[idn] == sm0[ido] by {
                assert(sm_e.contains_key(idn) && sm_e[idn] == sm0[ido]);
                assert(em.contains_key(idn));
                assert(sm_f.contains_key(idn) && sm_f[idn] == sm_e[idn]);
                assert(smz.contains_key(idn) && smz[idn] == sm_f[idn]);
            }
            // The no-churn case: every eligible item already had an
            // identity, so nothing was transferred, retired or allocated.
            if forall|id: u64| em.contains_key(id) ==> sm0.contains_key(id) {
                assert(smz == sm_f && self.next_stable == nx0);
                assert(sm_e == sm0);
                assert(smz =~= sm0.restrict(em.dom())) by {
                    assert forall|id: u64| smz.contains_key(id)
                        implies sm0.restrict(em.dom()).contains_key(id)
                            && smz[id] == sm0.restrict(em.dom())[id] by {
                        assert(em.contains_key(id));
                        assert(sm_e.contains_key(id) && smz[id] == sm_e[id]);
                    }
                    assert forall|id: u64| sm0.restrict(em.dom()).contains_key(id)
                        implies smz.contains_key(id) by {
                        assert(sm_e.contains_key(id) && em.contains_key(id));
                    }
                }
            }
        }
    }
}

impl Engine {
    /// After a reconciliation pass: for every stable identity with a
    /// registered template, compares its current display position with the
    /// last known one; on a change, re-renders the template at the new
    /// 1-indexed position, records the new position, and emits a rename.
    #[verifier::loop_isolation(false)]
    fn auto_relabel(&mut self) -> (acts: Vec<RenameAction>)
        requires
            old(self).wf(),
        ensures
            final(self).wf(),
            final(self).groups_seq() == old(self).groups_seq(),
            final(self).item_groups_seq() == old(self).item_groups_seq(),
            final(self).pos_map() == old(self).pos_map(),
            final(self).stable_map() == old(self).stable_map(),
            final(self).template_map() == old(self).template_map(),
            final(self).allocator() == old(self).allocator(),
            final(self).last_pos_map().dom() == old(self).last_pos_map().dom(),
            forall|k: int| 0 <= k < acts@.len()
                ==> old(self).template_map().contains_key(#[trigger] acts@[k].target),
            forall|k1: int, k2: int| 0 <= k1 < k2 < acts@.len()
                ==> acts@[k1].target != acts@[k2].target,
            forall|k: int| 0 <= k < acts@.len() ==> act_label_backed(
                old(self).stable_map(),
                old(self).pos_map(),
                old(self).template_map(),
                #[trigger] acts@[k],
            ),
            forall|sid: u64| #[trigger] final(self).last_pos_map().contains_key(sid)
                ==> final(self).last_pos_map()[sid] == old(self).last_pos_map()[sid]
                    || exists|k: int| 0 <= k < acts@.len() && acts@[k].target == sid,
            forall|sid: u64, q: u64| old(self).template_map().contains_key(sid)
                && #[trigger] bearers_agree(old(self).stable_map(), old(self).pos_map(), sid, q)
                ==> if old(self).last_pos_map().contains_key(sid)
                    && old(self).last_pos_map()[sid] == q {
                    &&& final(self).last_pos_map()[sid] == q
                    &&& forall|k: int| 0 <= k < acts@.len() ==> acts@[k].target != sid
                } else {
                    &&& final(self).last_pos_map().contains_key(sid)
                    &&& final(self).last_pos_map()[sid] == q
                    &&& exists|k: int| 0 <= k < acts@.len() && acts@[k].target == sid
                        && acts@[k].label@ == render_ok(
                            old(self).template_map()[sid]@,
                            dec_seq(q as nat + 1),
                        )
                },
    {
        let ghost gg = self.groups@;
        let ghost igg = self.item_groups@;
        let ghost nxa = self.next_stable;
        let ghost sm = self.item_to_stable@;
        let ghost pm = self.item_to_pos@;
        let ghost tm = self.templates@;
        let ghost lp_pre = self.last_pos@;

        // Derive each stable identity's current display position from its
        // bearers.
        let ids = self.item_to_stable.keys();
        let idn = ids.len();
        let mut cur: VecMap<u64> = VecMap::new();
        let mut k: usize = 0;
        while k < idn
            invariant
                0 <= k <= idn,
                forall|sid: u64| #[trigger] cur@.contains_key(sid) ==> exists|id: u64|
                    sm.contains_key(id) && sm[id] == sid && pm.contains_key(id)
                        && pm[id] == cur@[sid],
                forall|j: int| 0 <= j < k && pm.contains_key(#[trigger] ids@[j])
                    ==> cur@.contains_key(sm[ids@[j]]),
            decreases idn - k,
        {
            let id = ids[k];
            match self.item_to_stable.get(id) {
                Some(sref) => {
                    let s = *sref;
                    match self.item_to_pos.get(id) {
                        Some(pref) => {
                            let p = *pref;
                            cur.insert(s, p);
                            proof {
                                assert forall|sid: u64| #[trigger] cur@.contains_key(sid)
                                    implies exists|id2: u64| sm.contains_key(id2) && sm[id2] == sid
                                        && pm.contains_key(id2) && pm[id2] == cur@[sid] by {
                                    if sid == s {
                                        assert(sm.contains_key(id) && sm[id] == sid
                                            && pm.contains_key(id) && pm[id] == cur@[sid]);
                                    }
                                }
                            }
                        },
                        None => {},
                    }
                },
                None => {},
            }
            k += 1;
        }
        proof {
            assert forall|sid: u64, q: u64| tm.contains_key(sid)
                && #[trigger] bearers_agree(sm, pm, sid, q)
                implies cur@.contains_key(sid) && cur@[sid] == q by {
                assert(has_stable(sm, sid));
                let idb = choose|id: u64| sm.contains_key(id) && sm[id] == sid;
                assert(pm.contains_key(idb) && pm[idb] == q);
                assert(ids@.contains(idb));
                let j = choose|j: int| 0 <= j < ids@.len() && ids@[j] == idb;
                assert(pm.contains_key(ids@[j]));
                assert(cur@.contains_key(sm[ids@[j]]));
                assert(sm[ids@[j]] == sid);
                let idw = choose|id: u64| sm.contains_key(id) && sm[id] == sid
                    && pm.contains_key(id) && pm[id] == cur@[sid];
                assert(sm.contains_key(idw) && sm[idw] == sid);
                assert(pm[idw] == q);
            }
        }

        // Re-render and re-issue for every templated identity that moved.
        let tsids = self.templates.keys();
        let tn = tsids.len();
        let mut acts: Vec<RenameAction> = Vec::new();
        let mut w: usize = 0;
        while w < tn
            invariant
                0 <= w <= tn,
                self.groups@ == gg,
                self.item_groups@ == igg,
                self.next_stable == nxa,
                self.item_to_stable@ == sm,
                self.item_to_pos@ == pm,
                self.templates@ == tm,
                self.last_pos@.dom() == lp_pre.dom(),
                forall|a: int| 0 <= a < acts@.len() ==> exists|j: int|
                    0 <= j < w && tsids@[j] == #[trigger] acts@[a].target,
                forall|a1: int, a2: int| 0 <= a1 < a2 < acts@.len()
                    ==> acts@[a1].target != acts@[a2].target,
                forall|a: int| 0 <= a < acts@.len()
                    ==> act_label_backed(sm, pm, tm, #[trigger] acts@[a]),
                forall|j: int| w <= j < tn
                    ==> #[trigger] self.last_pos@.contains_key(tsids@[j])
                        == lp_pre.contains_key(tsids@[j])
                        && (lp_pre.contains_key(tsids@[j])
                            ==> self.last_pos@[tsids@[j]] == lp_pre[tsids@[j]]),
                forall|sid: u64| #[trigger] self.last_pos@.contains_key(sid)
                    ==> self.last_pos@[sid] == lp_pre[sid]
                        || exists|a: int| 0 <= a < acts@.len() && acts@[a].target == sid,
                forall|j: int, q: u64| 0 <= j < w && #[trigger] bearers_agree(sm, pm, tsids@[j], q)
                    ==> if lp_pre.contains_key(tsids@[j]) && lp_pre[tsids@[j]] == q {
                        &&& self.last_pos@.contains_key(tsids@[j])
                        &&& self.last_pos@[tsids@[j]] == q
                        &&& forall|a: int| 0 <= a < acts@.len() ==> acts@[a].target != tsids@[j]
                    } else {
                        &&& self.last_pos@.contains_key(tsids@[j])
                        &&& self.last_pos@[tsids@[j]] == q
                        &&& exists|a: int| 0 <= a < acts@.len() && acts@[a].target == tsids@[j]
                            && acts@[a].label@ == render_ok(tm[tsids@[j]]@, dec_seq(q as nat + 1))
                    },
            decreases tn - w,
        {
            let sid = tsids[w];
            let ghost lp_loop = self.last_pos@;
            let ghost acts_loop = acts@;
            match cur.get(sid) {
                Some(pref) => {
                    let p = *pref;
                    let moved: bool = match self.last_pos.get(sid) {
                        Some(lpref) => *lpref != p,
                        None => true,
                    };
                    if moved {
                        let gl = self.groups.len();
                        proof {
                            lemma_eligible_map_positions(self.groups@, self.item_groups@);
                            assert(exists|id: u64| sm.contains_key(id) && sm[id] == sid
                                && pm.contains_key(id) && pm[id] == cur@[sid]);
                            assert(p < self.groups@.len());
                            assert(p < gl as u64);
                        }
                        match self.templates.get(sid) {
                            Some(tstr) => {
                                proof {
                                    assert(template_ok(tstr@));
                                    lemma_render_value_independent(
                                        tstr@,
                                        0,
                                        Seq::empty(),
                                        dec_seq(p as nat + 1),
                                    );
                                }
                                match render_template(tstr.as_str(), p + 1) {
                                    Ok(label) => {
                                        proof {
                                            assert(tstr@ == tm[sid]@);
                                            assert(label@ == render_ok(
                                                tm[sid]@,
                                                dec_seq(p as nat + 1),
                                            ));
                                        }
                                        acts.push(RenameAction { target: sid, label });
                                        self.last_pos.insert(sid, p);
                                        proof {
                                            assert(acts@[acts@.len() - 1].target == sid);
                                            assert(tsids@[w as int] == sid);
                                            assert(tm.contains_key(sid));
                                            assert(lp_pre.contains_key(sid));
                                            let idb = choose|id2: u64| sm.contains_key(id2)
                                                && sm[id2] == sid && pm.contains_key(id2)
                                                && pm[id2] == cur@[sid];
                                            assert(pm[idb] == p);
                                            assert forall|a: int| 0 <= a < acts@.len()
                                                implies act_label_backed(
                                                sm,
                                                pm,
                                                tm,
                                                #[trigger] acts@[a],
                                            ) by {
                                                if a < acts@.len() - 1 {
                                                    assert(acts@[a] == acts_loop[a]);
                                                    assert(act_label_backed(
                                                        sm,
                                                        pm,
                                                        tm,
                                                        acts_loop[a],
                                                    ));
                                                } else {
                                                    assert(sm.contains_key(idb)
                                                        && sm[idb] == acts@[a].target
                                                        && pm.contains_key(idb)
                                                        && acts@[a].label@ == render_ok(
                                                        tm[acts@[a].target]@,
                                                        dec_seq(pm[idb] as nat + 1),
                                                    ));
                                                }
                                            }
                                            assert(self.last_pos@.dom() =~= lp_pre.dom());
                                            assert forall|sid2: u64|
                                                #[trigger] self.last_pos@.contains_key(sid2)
                                                implies self.last_pos@[sid2] == lp_pre[sid2]
                                                    || exists|a: int| 0 <= a < acts@.len()
                                                        && acts@[a].target == sid2 by {
                                                if sid2 == sid {
                                                    assert(acts@[acts@.len() - 1].target == sid2);
                                                } else {
                                                    assert(self.last_pos@[sid2] == lp_loop[sid2]);
                                                    if exists|a: int| 0 <= a < acts_loop.len()
                                                        && acts_loop[a].target == sid2 {
                                                        let a = choose|a: int|
                                                            0 <= a < acts_loop.len()
                                                                && acts_loop[a].target == sid2;
                                                        assert(acts@[a].target == sid2);
                                                    }
                                                }
                                            }
                                            assert forall|j: int| w + 1 <= j < tn
                                                implies #[trigger] self.last_pos@.contains_key(
                                                tsids@[j],
                                            ) == lp_pre.contains_key(tsids@[j])
                                                && (lp_pre.contains_key(tsids@[j])
                                                    ==> self.last_pos@[tsids@[j]]
                                                        == lp_pre[tsids@[j]]) by {
                                                assert(tsids@[j] != tsids@[w as int]);
                                            }
                                        }
                                    },
                                    Err(_) => {
                                        // A registered template always renders: it was
                                        // validated when the rename request registered it.
                                        proof {
                                            assert(false);
                                        }
                                    },
                                }
                            },
                            None => {},
                        }
                    }
                },
                None => {},
            }
            proof {
                assert forall|j: int, q: u64| 0 <= j < w + 1 && #[trigger] bearers_agree(
                    sm,
                    pm,
                    tsids@[j],
                    q,
                ) implies if lp_pre.contains_key(tsids@[j]) && lp_pre[tsids@[j]] == q {
                    &&& self.last_pos@.contains_key(tsids@[j])
                    &&& self.last_pos@[tsids@[j]] == q
                    &&& forall|a: int| 0 <= a < acts@.len() ==> acts@[a].target != tsids@[j]
                } else {
                    &&& self.last_pos@.contains_key(tsids@[j])
                    &&& self.last_pos@[tsids@[j]] == q
                    &&& exists|a: int| 0 <= a < acts@.len() && acts@[a].target == tsids@[j]
                        && acts@[a].label@ == render_ok(tm[tsids@[j]]@, dec_seq(q as nat + 1))
                } by {
                    if j < w {
                        if lp_pre.contains_key(tsids@[j]) && lp_pre[tsids@[j]] == q {
                        } else {
                            let a = choose|a: int| 0 <= a < acts_loop.len()
                                && acts_loop[a].target == tsids@[j]
                                && acts_loop[a].label@ == render_ok(
                                tm[tsids@[j]]@,
                                dec_seq(q as nat + 1),
                            );
                            assert(acts@[a].target == tsids@[j] && acts@[a].label@ == render_ok(
                                tm[tsids@[j]]@,
                                dec_seq(q as nat + 1),
                            ));
                        }
                    } else {
                        assert(tsids@[j] == sid);
                        assert(cur@.contains_key(sid) && cur@[sid] == q);
                    }
                }
            }
            w += 1;
        }
        proof {
            assert forall|sid: u64, q: u64| tm.contains_key(sid)
                && #[trigger] bearers_agree(sm, pm, sid, q)
                implies if lp_pre.contains_key(sid) && lp_pre[sid] == q {
                    &&& self.last_pos@.contains_key(sid)
                    &&& self.last_pos@[sid] == q
                    &&& forall|k2: int| 0 <= k2 < acts@.len() ==> acts@[k2].target != sid
                } else {
                    &&& self.last_pos@.contains_key(sid)
                    &&& self.last_pos@[sid] == q
                    &&& exists|k2: int| 0 <= k2 < acts@.len() && acts@[k2].target == sid
                        && acts@[k2].label@ == render_ok(tm[sid]@, dec_seq(q as nat + 1))
                } by {
                assert(tsids@.contains(sid));
                let j = choose|j: int| 0 <= j < tsids@.len() && tsids@[j] == sid;
                assert(bearers_agree(sm, pm, tsids@[j], q));
            }
            assert forall|a: int| 0 <= a < acts@.len() implies tm.contains_key(
                #[trigger] acts@[a].target,
            ) by {
                let j = choose|j: int| 0 <= j < tn && tsids@[j] == acts@[a].target;
                assert(tm.contains_key(tsids@[j]));
            }
            assert forall|k2: int| 0 <= k2 < acts@.len() implies act_label_backed(
                old(self).stable_map(),
                old(self).pos_map(),
                old(self).template_map(),
                #[trigger] acts@[k2],
            ) by {
                assert(act_label_backed(sm, pm, tm, acts@[k2]));
            }
        }
        acts
    }
}

impl Engine {
    /// One full pass over the current snapshots: reconcile, then
    /// auto-relabel.
    fn run_pass(&mut self) -> (acts: Vec<RenameAction>)
        requires
            old(self).wf_core(),
            old(self).allocator() as int + eligible_pairs(
                old(self).groups_seq(),
                old(self).item_groups_seq(),
            ).len() <= u64::MAX,
        ensures
            final(self).wf(),
            final(self).groups_seq() == old(self).groups_seq(),
            final(self).item_groups_seq() == old(self).item_groups_seq(),
            pass_post(
                eligible_pairs(old(self).groups_seq(), old(self).item_groups_seq()),
                old(self).pos_map(),
                eligible_map(old(self).groups_seq(), old(self).item_groups_seq()),
                old(self).stable_map(),
                old(self).template_map(),
                old(self).last_pos_map(),
                old(self).allocator(),
                *final(self),
                acts@,
            ),
    {
        self.reconcile();
        let ghost mid = *self;
        let acts = self.auto_relabel();
        proof {
            let em = eligible_map(old(self).groups_seq(), old(self).item_groups_seq());
            let sm0 = old(self).stable_map();
            let tm0 = old(self).template_map();
            let lp0 = old(self).last_pos_map();
            assert forall|k: int| 0 <= k < acts@.len() implies act_label_backed(
                self.stable_map(),
                self.pos_map(),
                self.template_map(),
                #[trigger] acts@[k],
            ) by {
                assert(act_label_backed(
                    mid.stable_map(),
                    mid.pos_map(),
                    mid.template_map(),
                    acts@[k],
                ));
            }
            assert forall|sid: u64| #[trigger] self.last_pos_map().contains_key(sid)
                implies lp0.contains_key(sid)
                    && (self.last_pos_map()[sid] == lp0[sid]
                        || exists|k: int| 0 <= k < acts@.len() && acts@[k].target == sid) by {
                assert(mid.last_pos_map().contains_key(sid));
            }
            assert forall|sid: u64, q: u64| self.template_map().contains_key(sid)
                && #[trigger] bearers_agree(self.stable_map(), self.pos_map(), sid, q)
                implies if lp0.contains_key(sid) && lp0[sid] == q {
                    &&& self.last_pos_map()[sid] == q
                    &&& forall|k: int| 0 <= k < acts@.len() ==> acts@[k].target != sid
                } else {
                    &&& self.last_pos_map().contains_key(sid)
                    &&& self.last_pos_map()[sid] == q
                    &&& exists|k: int| 0 <= k < acts@.len() && acts@[k].target == sid
                        && acts@[k].label@ == render_ok(
                            self.template_map()[sid]@,
                            dec_seq(q as nat + 1),
                        )
                } by {
                assert(mid.template_map().contains_key(sid));
                assert(mid.last_pos_map().contains_key(sid));
                assert(lp0.contains_key(sid));
                assert(mid.last_pos_map()[sid] == lp0[sid]);
                assert(bearers_agree(mid.stable_map(), mid.pos_map(), sid, q));
            }
        }
        acts
    }

    /// Handles a group-list event: replaces the group snapshot wholesale,
    /// reconciles, and auto-relabels any templated group whose display
    /// position moved.
    pub fn on_group_update(&mut self, groups: Vec<Group>) -> (acts: Vec<RenameAction>)
        requires
            old(self).wf(),
            old(self).allocator() as int + eligible_pairs(
                groups@,
                old(self).item_groups_seq(),
            ).len() <= u64::MAX,
        ensures
            final(self).wf(),
            final(self).groups_seq() == groups@,
            final(self).item_groups_seq() == old(self).item_groups_seq(),
            pass_post(
                eligible_pairs(groups@, old(self).item_groups_seq()),
                old(self).pos_map(),
                eligible_map(groups@, old(self).item_groups_seq()),
                old(self).stable_map(),
                old(self).template_map(),
                old(self).last_pos_map(),
                old(self).allocator(),
                *final(self),
                acts@,
            ),
    {
        self.groups = groups;
        self.run_pass()
    }

    /// Handles an item-list event: replaces the item snapshot wholesale,
    /// reconciles, and auto-relabels any templated group whose display
    /// position moved.
    pub fn on_item_update(&mut self, item_groups: Vec<ItemGroup>) -> (acts: Vec<RenameAction>)
        requires
            old(self).wf(),
            old(self).allocator() as int + eligible_pairs(
                old(self).groups_seq(),
                item_groups@,
            ).len() <= u64::MAX,
        ensures
            final(self).wf(),
            final(self).groups_seq() == old(self).groups_seq(),
            final(self).item_groups_seq() == item_groups@,
            pass_post(
                eligible_pairs(old(self).groups_seq(), item_groups@),
                old(self).pos_map(),
                eligible_map(old(self).groups_seq(), item_groups@),
                old(self).stable_map(),
                old(self).template_map(),
                old(self).last_pos_map(),
                old(self).allocator(),
                *final(self),
                acts@,
            ),
    {
        self.item_groups = item_groups;
        self.run_pass()
    }
}

impl Engine {
    /// Handles one rename request against the current mappings: resolves
    /// the item, renders the template at the item's 1-indexed display
    /// position, checks for a no-op, resolves the target (stable identity,
    /// or raw position in fragile direct mode), and on success registers
    /// the template for future auto-relabels. Every failure rejects the
    /// whole request with no mutation.
    pub fn handle_pipe(&mut self, input: PipeInput) -> (r: Result<RenameOutcome, RenameError>)
        requires
            old(self).wf(),
        ensures
            final(self).wf(),
            pipe_post(*old(self), *final(self), input, r),
    {
        let req = match input {
            PipeInput::Missing => {
                return Err(RenameError::MissingPayload);
            },
            PipeInput::Malformed => {
                return Err(RenameError::MalformedRequest);
            },
            PipeInput::Request(req) => req,
        };
        let id = match parse_u64(req.item_id.as_str()) {
            Some(id) => id,
            None => {
                return Err(RenameError::InvalidIdentifier);
            },
        };
        let p = match self.item_to_pos.get(id) {
            Some(pref) => *pref,
            None => {
                return Err(RenameError::UnknownItem);
            },
        };
        let gl = self.groups.len();
        proof {
            lemma_eligible_map_positions(self.groups@, self.item_groups@);
            assert(p < self.groups@.len());
            assert(p < gl as u64);
        }
        let name = match render_template(req.label_template.as_str(), p + 1) {
            Ok(n) => n,
            Err(f) => {
                return Err(RenameError::TemplateError(f));
            },
        };
        let pi = p as usize;
        if pi < gl && self.groups[pi].label == name {
            return Ok(RenameOutcome::NoOp);
        }
        let sid_opt: Option<u64> = match self.item_to_stable.get(id) {
            Some(sref) => Some(*sref),
            None => None,
        };
        let target: u64;
        if req.use_stable_identity {
            match sid_opt {
                Some(s) => {
                    target = s;
                },
                None => {
                    // Positions and identities are rebuilt together, so an
                    // item with a position always has an identity; the
                    // rejection is kept as part of the failure taxonomy.
                    return Err(RenameError::NoStableIdentity);
                },
            }
        } else {
            target = p + 1;
        }
        match sid_opt {
            Some(s) => {
                proof {
                    lemma_render_value_independent(
                        req.label_template@,
                        0,
                        dec_seq(p as nat + 1),
                        Seq::empty(),
                    );
                    assert(self.stable_map().contains_key(id) && self.stable_map()[id] == s);
                    assert(has_stable(self.stable_map(), s));
                }
                let ghost tm_pre = self.templates@;
                self.templates.insert(s, req.label_template.clone());
                self.last_pos.insert(s, p);
                proof {
                    assert(self.templates@.dom() =~= tm_pre.dom().insert(s));
                    assert(self.templates@.dom() =~= self.last_pos@.dom());
                }
            },
            None => {},
        }
        Ok(RenameOutcome::Renamed(RenameAction { target, label: name }))
    }
}

impl Engine {
    /// The display position currently recorded for an item.
    pub fn display_position(&self, id: u64) -> (r: Option<u64>)
        ensures
            match r {
                Some(p) => self.pos_map().contains_key(id) && p == self.pos_map()[id],
                None => !self.pos_map().contains_key(id),
            },
    {
        match self.item_to_pos.get(id) {
            Some(p) => Some(*p),
            None => None,
        }
    }

    /// The stable identity currently recorded for an item.
    pub fn stable_identity(&self, id: u64) -> (r: Option<u64>)
        ensures
            match r {
                Some(s) => self.stable_map().contains_key(id) && s == self.stable_map()[id],
                None => !self.stable_map().contains_key(id),
            },
    {
        match self.item_to_stable.get(id) {
            Some(s) => Some(*s),
            None => None,
        }
    }

    /// The label template registered for a stable identity.
    pub fn template_for(&self, sid: u64) -> (r: Option<String>)
        ensures
            match r {
                Some(t) => self.template_map().contains_key(sid)
                    && t@ == self.template_map()[sid]@,
                None => !self.template_map().contains_key(sid),
            },
    {
        match self.templates.get(sid) {
            Some(t) => Some(t.clone()),
            None => None,
        }
    }

    /// The last known display position of a stable identity.
    pub fn last_known_position(&self, sid: u64) -> (r: Option<u64>)
        ensures
            match r {
                Some(p) => self.last_pos_map().contains_key(sid)
                    && p == self.last_pos_map()[sid],
                None => !self.last_pos_map().contains_key(sid),
            },
    {
        match self.last_pos.get(sid) {
            Some(p) => Some(*p),
            None => None,
        }
    }

    /// The next value the stable-identity allocator will hand out.
    pub fn next_identity(&self) -> (n: u64)
        ensures
            n == self.allocator(),
    {
        self.next_stable
    }
}

/// The item list the current snapshot holds for host position `pos`.
fn lookup_items<'a>(igs: &'a Vec<ItemGroup>, pos: u64) -> (r: Option<&'a Vec<Item>>)
    ensures
        match r {
            Some(v) => v@ == items_of(igs@, pos),
            None => items_of(igs@, pos) == Seq::<Item>::empty(),
        },
{
    let n = igs.len();
    let mut i: usize = 0;
    proof {
        assert(igs@.skip(0) =~= igs@);
    }
    while i < n
        invariant
            n == igs@.len(),
            0 <= i <= n,
            items_of(igs@, pos) == items_of(igs@.skip(i as int), pos),
        decreases n - i,
    {
        proof {
            assert(igs@.skip(i as int)[0] == igs@[i as int]);
            assert(igs@.skip(i as int).drop_first() =~= igs@.skip(i + 1));
        }
        if igs[i].position == pos {
            return Some(&igs[i].items);
        }
        i += 1;
    }
    proof {
        assert(igs@.skip(n as int) =~= Seq::<ItemGroup>::empty());
    }
    None
}

/// The (item id, display index) pairs of the joined snapshots, in
/// enumeration order.
fn build_eligible(groups: &Vec<Group>, igs: &Vec<ItemGroup>) -> (elig: Vec<(u64, u64)>)
    ensures
        elig@ == eligible_pairs(groups@, igs@),
{
    let gn = groups.len();
    let mut elig: Vec<(u64, u64)> = Vec::new();
    let mut d: usize = 0;
    while d < gn
        invariant
            gn == groups@.len(),
            0 <= d <= gn,
            elig@ == eligible_pairs(groups@.take(d as int), igs@),
        decreases gn - d,
    {
        proof {
            assert(groups@.take(d + 1).drop_last() =~= groups@.take(d as int));
            assert(groups@.take(d + 1).last() == groups@[d as int]);
        }
        let ghost items_spec = items_of(igs@, groups@[d as int].position);
        let ghost elig_pre = elig@;
        match lookup_items(igs, groups[d].position) {
            Some(items) => {
                let ln = items.len();
                let mut j: usize = 0;
                while j < ln
                    invariant
                        ln == items@.len(),
                        0 <= j <= ln,
                        items@ == items_spec,
                        d < gn,
                        gn == groups@.len(),
                        elig@ == elig_pre + pairs_of_list(items_spec.take(j as int), d as u64),
                    decreases ln - j,
                {
                    proof {
                        assert(items_spec.take(j + 1).drop_last() =~= items_spec.take(j as int));
                        assert(items_spec.take(j + 1).last() == items_spec[j as int]);
                    }
                    let it = &items[j];
                    if !it.is_virtual && !it.is_hidden {
                        elig.push((it.id, d as u64));
                        proof {
                            assert(elig@ =~= elig_pre + pairs_of_list(
                                items_spec.take(j + 1),
                                d as u64,
                            ));
                        }
                    } else {
                        proof {
                            assert(elig@ =~= elig_pre + pairs_of_list(
                                items_spec.take(j + 1),
                                d as u64,
                            ));
                        }
                    }
                    j += 1;
                }
                proof {
                    assert(items_spec.take(ln as int) =~= items_spec);
                    assert(elig@ =~= eligible_pairs(groups@.take(d + 1), igs@));
                }
            },
            None => {
                proof {
                    assert(pairs_of_list(items_spec, d as u64) =~= Seq::<(u64, u64)>::empty());
                    assert(elig@ =~= eligible_pairs(groups@.take(d + 1), igs@));
                }
            },
        }
        d += 1;
    }
    proof {
        assert(groups@.take(gn as int) =~= groups@);
    }
    elig
}

/// Extending a processed prefix by one element that is not `x` does not
/// change whether the prefix contains `x`.
proof fn lemma_take_step_other(s: Seq<u64>, k: int, x: u64)
    requires
        0 <= k < s.len(),
        s[k] != x,
    ensures
        s.take(k + 1).contains(x) == s.take(k).contains(x),
{
    let t1 = s.take(k + 1);
    let t0 = s.take(k as int);
    if t1.contains(x) {
        let j = choose|j: int| 0 <= j < t1.len() && t1[j] == x;
        assert(j < k);
        assert(t0[j] == x);
    }
    if t0.contains(x) {
        let j = choose|j: int| 0 <= j < t0.len() && t0[j] == x;
        assert(t1[j] == x);
    }
}

/// The prefix through index `k` contains the element at `k`.
proof fn lemma_take_step_hit(s: Seq<u64>, k: int)
    requires
        0 <= k < s.len(),
    ensures
        s.take(k + 1).contains(s[k]),
{
    assert(s.take(k + 1)[k] == s[k]);
}

/// A distinct sequence's prefix before `k` does not contain `s[k]`.
proof fn lemma_take_distinct(s: Seq<u64>, k: int)
    requires
        0 <= k < s.len(),
        forall|i: int, j: int| 0 <= i < j < s.len() ==> s[i] != s[j],
    ensures
        !s.take(k as int).contains(s[k]),
{
    if s.take(k as int).contains(s[k]) {
        let j = choose|j: int| 0 <= j < s.take(k as int).len() && s.take(k as int)[j] == s[k];
        assert(s[j] == s[k]);
    }
}

/// Every candidate is an eligible pair's item at the given display
/// position, and has no stable identity.
proof fn lemma_cand_seq_elements(pairs: Seq<(u64, u64)>, sm: Map<u64, u64>, p: u64, j: int)
    requires
        0 <= j < cand_seq(pairs, sm, p).len(),
    ensures
        exists|i: int| 0 <= i < pairs.len() && pairs[i].0 == cand_seq(pairs, sm, p)[j]
            && pairs[i].1 == p,
        !sm.contains_key(cand_seq(pairs, sm, p)[j]),
    decreases pairs.len(),
{
    let cs = cand_seq(pairs, sm, p);
    let rest = cand_seq(pairs.drop_last(), sm, p);
    if pairs.last().1 == p && !sm.contains_key(pairs.last().0) && j == cs.len() - 1 {
        assert(pairs[pairs.len() - 1].0 == cs[j] && pairs[pairs.len() - 1].1 == p);
    } else {
        lemma_cand_seq_elements(pairs.drop_last(), sm, p, j);
        let i = choose|i: int| 0 <= i < pairs.drop_last().len() && pairs.drop_last()[i].0 == rest[j]
            && pairs.drop_last()[i].1 == p;
        assert(pairs[i].0 == cs[j] && pairs[i].1 == p);
    }
}

/// Builds the per-position candidate stacks for the current pass.
fn build_candidates(elig: &Vec<(u64, u64)>, stable: &VecMap<u64>) -> (cands: VecMap<Vec<u64>>)
    ensures
        forall|p: u64| cand_list(cands@, p) == cand_seq(elig@, stable@, p),
{
    let n = elig.len();
    let mut cands: VecMap<Vec<u64>> = VecMap::new();
    let mut k: usize = 0;
    while k < n
        invariant
            n == elig@.len(),
            0 <= k <= n,
            forall|p: u64| cand_list(cands@, p) == cand_seq(elig@.take(k as int), stable@, p),
        decreases n - k,
    {
        proof {
            assert(elig@.take(k + 1).drop_last() =~= elig@.take(k as int));
            assert(elig@.take(k + 1).last() == elig@[k as int]);
        }
        let (id, p) = elig[k];
        if !stable.contains_key(id) {
            let ghost cands_pre = cands@;
            let mut lst = match cands.take(p) {
                Some(l) => l,
                None => Vec::new(),
            };
            proof {
                assert(cand_list(cands_pre, p) == cand_seq(elig@.take(k as int), stable@, p));
                assert(lst@ == cand_list(cands_pre, p));
            }
            lst.push(id);
            let ghost lst_snap = lst@;
            cands.insert(p, lst);
            proof {
                assert(cands@ =~= cands_pre.remove(p).insert(p, cands@[p]));
                assert(cands@[p]@ == lst_snap);
                assert forall|q: u64| cand_list(cands@, q) == cand_seq(
                    elig@.take(k + 1),
                    stable@,
                    q,
                ) by {
                    if q == p {
                        assert(cands@.contains_key(p));
                        assert(lst_snap =~= cand_seq(elig@.take(k as int), stable@, p).push(id));
                        assert(cand_seq(elig@.take(k + 1), stable@, p) == cand_seq(
                            elig@.take(k as int),
                            stable@,
                            p,
                        ).push(id));
                    } else {
                        assert(cand_list(cands_pre, q) == cand_seq(elig@.take(k as int), stable@, q));
                        assert(cands@.contains_key(q) == cands_pre.contains_key(q));
                        assert(cands@.contains_key(q) ==> cands@[q] == cands_pre[q]);
                        assert(cand_seq(elig@.take(k + 1), stable@, q) == cand_seq(
                            elig@.take(k as int),
                            stable@,
                            q,
                        ));
                    }
                }
            }
        } else {
            proof {
                assert forall|q: u64| cand_list(cands@, q) == cand_seq(
                    elig@.take(k + 1),
                    stable@,
                    q,
                ) by {
                    assert(cand_seq(elig@.take(k + 1), stable@, q) == cand_seq(
                        elig@.take(k as int),
                        stable@,
                        q,
                    ));
                }
            }
        }
        k += 1;
    }
    proof {
        assert(elig@.take(n as int) =~= elig@);
    }
    cands
}

/// Folds the eligible pairs into the item-to-display-position map.
fn build_pos_map(elig: &Vec<(u64, u64)>) -> (m: VecMap<u64>)
    ensures
        m@ == assoc_map(elig@),
{
    let n = elig.len();
    let mut m = VecMap::new();
    let mut k: usize = 0;
    while k < n
        invariant
            n == elig@.len(),
            0 <= k <= n,
            m@ == assoc_map(elig@.take(k as int)),
        decreases n - k,
    {
        proof {
            assert(elig@.take(k + 1).drop_last() =~= elig@.take(k as int));
            assert(elig@.take(k + 1).last() == elig@[k as int]);
        }
        let (id, p) = elig[k];
        m.insert(id, p);
        k += 1;
    }
    proof {
        assert(elig@.take(n as int) =~= elig@);
    }
    m
}

} // verus!
