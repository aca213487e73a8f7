//! Engine-wide laws, proved from the public contracts of the event
//! handlers and the rename request handler.

use vstd::prelude::*;
use crate::engine::{Engine, RenameAction, RenameError, RenameOutcome, RenameRequest, PipeInput,
    pass_post, pipe_post, has_stable, bearers_agree, same_state, lone_swap};
use crate::numbers::{dec_seq, parse_u64_spec};
use crate::template::render_spec;

verus! {

/// Allocator monotonicity: a pass never decreases the allocator; every
/// identity newly in use after a pass is at least the pass's starting
/// allocator value; and every identity in use before the pass — hence
/// every value the allocator ever handed out, including since-retired
/// ones — is strictly below that starting value. Chained over any
/// sequence of passes, freshly allocated values are therefore strictly
/// increasing and never repeat an earlier or retired value.
pub proof fn allocator_monotonic(
    pre: Engine,
    post: Engine,
    acts: Seq<RenameAction>,
    pairs: Seq<(u64, u64)>,
    em: Map<u64, u64>,
)
    requires
        pre.wf_core(),
        pass_post(
            pairs,
            pre.pos_map(),
            em,
            pre.stable_map(),
            pre.template_map(),
            pre.last_pos_map(),
            pre.allocator(),
            post,
            acts,
        ),
    ensures
        pre.allocator() <= post.allocator(),
        forall|id: u64| post.stable_map().contains_key(id)
            && !has_stable(pre.stable_map(), post.stable_map()[id])
            ==> post.stable_map()[id] >= pre.allocator(),
        forall|id: u64| pre.stable_map().contains_key(id)
            ==> pre.stable_map()[id] < pre.allocator(),
{
}

/// Identity persistence under stable churn: when, in one pass, exactly
/// one item (bearing a stable identity, last seen at position `pp`)
/// disappears and exactly one new item is enumerated, at that same
/// position, the new item acquires the departed item's stable identity —
/// the identity survives the host quietly replacing the item's
/// ephemeral identifier.
pub proof fn identity_persistence(
    pre: Engine,
    post: Engine,
    acts: Seq<RenameAction>,
    pairs: Seq<(u64, u64)>,
    em: Map<u64, u64>,
    id_old: u64,
    id_new: u64,
    pp: u64,
)
    requires
        pre.wf(),
        pass_post(
            pairs,
            pre.pos_map(),
            em,
            pre.stable_map(),
            pre.template_map(),
            pre.last_pos_map(),
            pre.allocator(),
            post,
            acts,
        ),
        lone_swap(pairs, pre.stable_map(), pre.pos_map(), id_old, id_new, pp),
    ensures
        post.stable_map().contains_key(id_new),
        post.stable_map()[id_new] == pre.stable_map()[id_old],
{
}

/// Identity retirement: when an item disappears in a pass that brings no
/// new item anywhere (so no transfer can take place), and no other item
/// bore its identity, that identity leaves the item mapping, the template
/// registry and the position record alike. Together with
/// `allocator_monotonic`, its numeric value is never assigned again.
pub proof fn identity_retirement(
    pre: Engine,
    post: Engine,
    acts: Seq<RenameAction>,
    pairs: Seq<(u64, u64)>,
    em: Map<u64, u64>,
    gone: u64,
)
    requires
        pre.wf(),
        post.wf(),
        pass_post(
            pairs,
            pre.pos_map(),
            em,
            pre.stable_map(),
            pre.template_map(),
            pre.last_pos_map(),
            pre.allocator(),
            post,
            acts,
        ),
        forall|id: u64| em.contains_key(id) ==> pre.stable_map().contains_key(id),
        pre.stable_map().contains_key(gone),
        !em.contains_key(gone),
        forall|id: u64| pre.stable_map().contains_key(id)
            && pre.stable_map()[id] == pre.stable_map()[gone] ==> id == gone,
    ensures
        !post.stable_map().contains_key(gone),
        !has_stable(post.stable_map(), pre.stable_map()[gone]),
        !post.template_map().contains_key(pre.stable_map()[gone]),
        !post.last_pos_map().contains_key(pre.stable_map()[gone]),
{
    let s = pre.stable_map()[gone];
    assert(post.stable_map() == pre.stable_map().restrict(em.dom()));
    assert(!post.stable_map().contains_key(gone));
    assert forall|id: u64| post.stable_map().contains_key(id)
        implies post.stable_map()[id] != s by {
        if post.stable_map()[id] == s {
            assert(pre.stable_map().contains_key(id) && pre.stable_map()[id] == s);
            assert(id == gone);
            assert(em.contains_key(gone));
        }
    }
    assert(!has_stable(post.stable_map(), s));
    assert(!post.template_map().contains_key(s));
    assert(post.template_map().dom() == post.last_pos_map().dom());
    assert(!post.last_pos_map().contains_key(s));
}

/// No-op idempotence of rename requests: after a successful stable-mode
/// rename and the host's acknowledgement of the new label (a group-list
/// update that moves nothing), the identical request is accepted as a
/// no-op — no second rename action is issued for that identity, neither
/// by the acknowledging pass nor by the repeated request, and the
/// repeated request mutates nothing.
///
/// `s1` is the state after the first request succeeded with rendered
/// label `name` for item `id` at position `p` bearing identity `sid`;
/// `s2` the state after the acknowledging pass with eligible map `em`;
/// the conclusions cover the pass's actions `acts` and the repeated
/// request handled on `s2` with result `r2` and final state `s3`.
pub proof fn rename_idempotent(
    s1: Engine,
    s2: Engine,
    s3: Engine,
    acts: Seq<RenameAction>,
    pairs: Seq<(u64, u64)>,
    em: Map<u64, u64>,
    req: RenameRequest,
    id: u64,
    sid: u64,
    p: u64,
    name: Seq<char>,
    r2: Result<RenameOutcome, RenameError>,
)
    requires
        s1.wf(),
        s2.wf(),
        // The first request resolved `req` to item `id` at position `p`
        // bearing `sid`, rendered `name`, and registered the template.
        parse_u64_spec(req.item_id@) == Some(id),
        render_spec(req.label_template@, dec_seq(p as nat + 1))
            == Ok::<Seq<char>, crate::template::TemplateFault>(name),
        s1.stable_map().contains_key(id),
        s1.stable_map()[id] == sid,
        bearers_agree(s1.stable_map(), s1.pos_map(), sid, p),
        s1.template_map().contains_key(sid),
        s1.last_pos_map().contains_key(sid),
        s1.last_pos_map()[sid] == p,
        // The acknowledging pass changes no position assignment, and the
        // updated snapshot now shows the rendered label at `p`.
        em == s1.pos_map(),
        pass_post(
            pairs,
            s1.pos_map(),
            em,
            s1.stable_map(),
            s1.template_map(),
            s1.last_pos_map(),
            s1.allocator(),
            s2,
            acts,
        ),
        p < s2.groups_seq().len(),
        s2.groups_seq()[p as int].label@ == name,
        // The identical request is then handled on `s2`, per the rename
        // handler's contract.
        pipe_post(s2, s3, PipeInput::Request(req), r2),
    ensures
        // The acknowledging pass issues no rename for `sid`.
        forall|k: int| 0 <= k < acts.len() ==> acts[k].target != sid,
        // The item still bears `sid` at position `p` afterwards.
        s2.stable_map().contains_key(id) && s2.stable_map()[id] == sid,
        s2.pos_map().contains_key(id) && s2.pos_map()[id] == p,
        // The repeated request is a no-op: no second action, no mutation.
        r2 == Ok::<RenameOutcome, RenameError>(RenameOutcome::NoOp),
        same_state(s2, s3),
{
    assert(em.dom() =~= s1.stable_map().dom());
    assert forall|q: u64| em.contains_key(q) implies s1.stable_map().contains_key(q) by {}
    assert(s2.stable_map() == s1.stable_map().restrict(em.dom()));
    assert(s2.stable_map() =~= s1.stable_map());
    assert(s2.pos_map() == em);
    assert(s2.pos_map().contains_key(id) && s2.pos_map()[id] == p);
    assert(s2.template_map().contains_key(sid)) by {
        assert(has_stable(s2.stable_map(), sid)) by {
            assert(s2.stable_map().contains_key(id) && s2.stable_map()[id] == sid);
        }
    }
    assert(bearers_agree(s2.stable_map(), s2.pos_map(), sid, p)) by {
        assert(has_stable(s2.stable_map(), sid)) by {
            assert(s2.stable_map().contains_key(id) && s2.stable_map()[id] == sid);
        }
        assert forall|w: u64| s2.stable_map().contains_key(w) && s2.stable_map()[w] == sid
            implies s2.pos_map().contains_key(w) && s2.pos_map()[w] == p by {
            assert(s1.stable_map().contains_key(w) && s1.stable_map()[w] == sid);
            assert(s1.pos_map().contains_key(w) && s1.pos_map()[w] == p);
        }
    }
    assert(forall|k: int| 0 <= k < acts.len() ==> acts[k].target != sid);
}

} // verus!
