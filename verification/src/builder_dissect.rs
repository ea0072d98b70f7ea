//! Dissecting a single builder XML into several: every `<object>` whose id belongs to a factory
//! goes, with everything nested inside it, to that factory's output only, while the surrounding
//! markup goes to every output.
use vstd::prelude::*;
use vstd::utf8::encode_utf8;
use crate::error::WoabError;
use crate::text::str_eq;
use crate::xml::{
    XmlEvent, XmlEventKind, XmlItem, xml_attributes_of, xml_char_boundary, xml_end_tags_nested,
    xml_event_items, xml_event_name_is, xml_events_on_boundaries, xml_item_is, xml_item_name_is,
    xml_markup, xml_open_depth, xml_parse_events, xml_read_events, xml_reader_from_bytes,
    xml_tag_attribute_list, xml_write_event,
};

verus! {

/// The factory an object id belongs to: the first factory whose list of ids holds it.
pub open spec fn factory_index(ids: Seq<Seq<Seq<char>>>, id: Seq<char>) -> Option<usize>
    decreases ids.len(),
{
    if ids.len() == 0 {
        None
    } else {
        match factory_index(ids.drop_last(), id) {
            Some(i) => Some(i),
            None => if ids.last().contains(id) {
                Some((ids.len() - 1) as usize)
            } else {
                None
            },
        }
    }
}

/// The factory of an `<object>` tag with the given attributes: the first well-formed `id`
/// attribute whose value belongs to a factory decides.
pub open spec fn object_target(
    attrs: Seq<Option<(Seq<char>, Seq<char>)>>,
    ids: Seq<Seq<Seq<char>>>,
) -> Option<usize>
    decreases attrs.len(),
{
    if attrs.len() == 0 {
        None
    } else {
        match object_target(attrs.drop_last(), ids) {
            Some(i) => Some(i),
            None => match attrs.last() {
                Some((key, value)) => if key == "id"@ {
                    factory_index(ids, value)
                } else {
                    None
                },
                None => None,
            },
        }
    }
}

/// The state of the dissection: what each output received so far, the objects being copied to
/// their own factory (innermost last) with the nesting depth of their start tags, and the current
/// nesting depth.
pub struct DissectState {
    pub outs: Seq<Seq<u8>>,
    pub stack: Seq<(usize, nat)>,
    pub depth: nat,
}

/// The output that receives the current markup: the innermost object being copied, or all
/// outputs (`None`) outside of any.
pub open spec fn stack_target(stack: Seq<(usize, nat)>) -> Option<usize> {
    if stack.len() == 0 {
        None
    } else {
        Some(stack.last().0)
    }
}

pub open spec fn stack_has(stack: Seq<(usize, nat)>, i: usize) -> bool {
    exists|j: int| 0 <= j < stack.len() && (#[trigger] stack[j]).0 == i
}

/// Appends `bytes` to the output `target`, or to every output.
pub open spec fn route_bytes(outs: Seq<Seq<u8>>, target: Option<usize>, bytes: Seq<u8>) -> Seq<
    Seq<u8>,
> {
    match target {
        Some(i) => outs.update(i as int, outs[i as int] + bytes),
        None => Seq::new(outs.len(), |j: int| outs[j] + bytes),
    }
}

/// One event of the dissection; `None` where copying it would re-enter an object that is already
/// being copied, or would overflow the nesting depth.
#[verifier::opaque]
pub open spec fn dissect_step(st: DissectState, item: XmlItem, ids: Seq<Seq<Seq<char>>>) -> Option<
    DissectState,
> {
    let bytes = encode_utf8(xml_markup(item));
    match item.kind {
        XmlEventKind::Start => if st.depth >= usize::MAX {
            None
        } else {
            let depth = st.depth + 1;
            let target = if xml_item_name_is(item, "object"@) {
                object_target(xml_attributes_of(item.content, item.name_len), ids)
            } else {
                None
            };
            match target {
                Some(i) => if stack_has(st.stack, i) {
                    None
                } else {
                    Some(
                        DissectState {
                            outs: route_bytes(st.outs, Some(i), bytes),
                            stack: st.stack.push((i, depth)),
                            depth,
                        },
                    )
                },
                None => Some(
                    DissectState {
                        outs: route_bytes(st.outs, stack_target(st.stack), bytes),
                        stack: st.stack,
                        depth,
                    },
                ),
            }
        },
        XmlEventKind::End => {
            let closes = st.stack.len() > 0 && st.stack.last().1 == st.depth;
            Some(
                DissectState {
                    outs: route_bytes(st.outs, stack_target(st.stack), bytes),
                    stack: if closes {
                        st.stack.drop_last()
                    } else {
                        st.stack
                    },
                    depth: (st.depth - 1) as nat,
                },
            )
        },
        _ => Some(
            DissectState {
                outs: route_bytes(st.outs, stack_target(st.stack), bytes),
                stack: st.stack,
                depth: st.depth,
            },
        ),
    }
}

/// The dissection of a sequence of events, from `n` empty outputs.
pub open spec fn dissect_run(items: Seq<Option<XmlItem>>, ids: Seq<Seq<Seq<char>>>, n: nat) -> Option<
    DissectState,
>
    decreases items.len(),
{
    if items.len() == 0 {
        Some(DissectState { outs: Seq::new(n, |j: int| Seq::<u8>::empty()), stack: seq![], depth: 0 })
    } else {
        match dissect_run(items.drop_last(), ids, n) {
            None => None,
            Some(st) => match items.last() {
                Some(item) => dissect_step(st, item, ids),
                None => Some(st),
            },
        }
    }
}

/// Dissecting an XML document into `n` outputs: `None` where it would re-enter an object that is
/// being copied; otherwise the bytes each output receives, and whether the whole document was
/// read (`false`: reading stopped at an error).
pub open spec fn dissect_result(input: Seq<u8>, ids: Seq<Seq<Seq<char>>>, n: nat) -> Option<
    (Seq<Seq<u8>>, bool),
> {
    let events = xml_parse_events(input);
    let last = events.len() - 1;
    match dissect_run(events.take(last), ids, n) {
        None => None,
        Some(st) => Some((st.outs, events[last] is Some)),
    }
}

/// What a target holds after `written` was written to it through a cursor at its start: the
/// written bytes, followed by what is left of its former content beyond them.
pub open spec fn cursor_overwrite(init: Seq<u8>, written: Seq<u8>) -> Seq<u8> {
    if written.len() >= init.len() {
        written
    } else {
        written + init.subrange(written.len() as int, init.len() as int)
    }
}

proof fn lemma_factory_index_prefix(ids: Seq<Seq<Seq<char>>>, id: Seq<char>, k: int)
    requires
        0 <= k <= ids.len(),
        factory_index(ids.take(k), id) is Some,
    ensures
        factory_index(ids, id) == factory_index(ids.take(k), id),
    decreases ids.len() - k,
{
    if k == ids.len() {
        assert(ids.take(k) =~= ids);
    } else {
        assert(ids.take(k + 1).drop_last() =~= ids.take(k));
        lemma_factory_index_prefix(ids, id, k + 1);
    }
}

proof fn lemma_factory_index_bound(ids: Seq<Seq<Seq<char>>>, id: Seq<char>)
    ensures
        factory_index(ids, id) matches Some(i) ==> i < ids.len(),
    decreases ids.len(),
{
    if ids.len() > 0 {
        lemma_factory_index_bound(ids.drop_last(), id);
    }
}

/// The factory of an object id: the first factory whose list of ids holds it.
pub fn factory_index_of(ids: &Vec<Vec<String>>, id: &str) -> (r: Option<usize>)
    ensures
        r == factory_index(ids.deep_view(), id@),
        r matches Some(i) ==> i < ids.len(),
{
    let ghost all = ids.deep_view();
    let mut i: usize = 0;
    while i < ids.len()
        invariant
            all == ids.deep_view(),
            i <= ids.len(),
            factory_index(all.take(i as int), id@) is None,
        decreases ids.len() - i,
    {
        let names = &ids[i];
        let mut k: usize = 0;
        while k < names.len()
            invariant
                all == ids.deep_view(),
                i < ids.len(),
                names == ids@[i as int],
                factory_index(all.take(i as int), id@) is None,
                k <= names.len(),
                forall|m: int| 0 <= m < k ==> names@[m]@ != id@,
            decreases names.len() - k,
        {
            if str_eq(names[k].as_str(), id) {
                proof {
                    assert(all.take(i + 1).drop_last() =~= all.take(i as int));
                    assert(all[i as int][k as int] == id@);
                    assert(all.take(i + 1).last() == all[i as int]);
                    assert(all.take(i + 1).last().contains(id@));
                    assert(all.take(i + 1).len() == i + 1);
                    assert(factory_index(all.take(i + 1), id@) == Some(i));
                    lemma_factory_index_prefix(all, id@, i + 1);
                }
                return Some(i);
            }
            k = k + 1;
        }
        proof {
            assert(all.take(i + 1).drop_last() =~= all.take(i as int));
            assert(!all[i as int].contains(id@)) by {
                if all[i as int].contains(id@) {
                    let m = choose|m: int| 0 <= m < all[i as int].len() && all[i as int][m] == id@;
                    assert(names@[m]@ == id@);
                }
            }
        }
        i = i + 1;
    }
    assert(all.take(i as int) =~= all);
    None
}

proof fn lemma_object_target_prefix(
    attrs: Seq<Option<(Seq<char>, Seq<char>)>>,
    ids: Seq<Seq<Seq<char>>>,
    k: int,
)
    requires
        0 <= k <= attrs.len(),
        object_target(attrs.take(k), ids) is Some,
    ensures
        object_target(attrs, ids) == object_target(attrs.take(k), ids),
    decreases attrs.len() - k,
{
    if k == attrs.len() {
        assert(attrs.take(k) =~= attrs);
    } else {
        assert(attrs.take(k + 1).drop_last() =~= attrs.take(k));
        lemma_object_target_prefix(attrs, ids, k + 1);
    }
}

/// The factory that an `<object>` tag belongs to, from its attributes.
fn object_target_of(ev: &XmlEvent, ids: &Vec<Vec<String>>) -> (r: Option<usize>)
    requires
        xml_char_boundary(ev.content@, ev.name_len as nat),
    ensures
        r == object_target(xml_attributes_of(ev.content@, ev.name_len as nat), ids.deep_view()),
{
    let attrs = xml_tag_attribute_list(ev.content.as_str(), ev.name_len);
    let ghost all = xml_attributes_of(ev.content@, ev.name_len as nat);
    let mut j: usize = 0;
    while j < attrs.len()
        invariant
            all == xml_attributes_of(ev.content@, ev.name_len as nat),
            attrs.deep_view() == all,
            j <= attrs.len(),
            object_target(all.take(j as int), ids.deep_view()) is None,
        decreases attrs.len() - j,
    {
        proof {
            assert(all.take(j + 1).drop_last() =~= all.take(j as int));
            assert(all.take(j + 1).last() == all[j as int]);
            assert(all[j as int] == attrs@[j as int].deep_view());
        }
        if let Some((key, value)) = &attrs[j] {
            if str_eq(key.as_str(), "id") {
                let found = factory_index_of(ids, value.as_str());
                if let Some(i) = found {
                    proof {
                        lemma_object_target_prefix(all, ids.deep_view(), j + 1);
                    }
                    return Some(i);
                }
            }
        }
        j = j + 1;
    }
    assert(all.take(j as int) =~= all);
    None
}

proof fn lemma_object_target_bound(
    attrs: Seq<Option<(Seq<char>, Seq<char>)>>,
    ids: Seq<Seq<Seq<char>>>,
)
    ensures
        object_target(attrs, ids) matches Some(i) ==> i < ids.len(),
    decreases attrs.len(),
{
    if attrs.len() > 0 {
        lemma_object_target_bound(attrs.drop_last(), ids);
        if let Some((key, value)) = attrs.last() {
            lemma_factory_index_bound(ids, value);
        }
    }
}

proof fn lemma_dissect_run_none_prefix(items: Seq<Option<XmlItem>>, ids: Seq<Seq<Seq<char>>>, n: nat, k: int)
    requires
        0 <= k <= items.len(),
        dissect_run(items.take(k), ids, n) is None,
    ensures
        dissect_run(items, ids, n) is None,
    decreases items.len() - k,
{
    if k == items.len() {
        assert(items.take(k) =~= items);
    } else {
        assert(items.take(k + 1).drop_last() =~= items.take(k));
        lemma_dissect_run_none_prefix(items, ids, n, k + 1);
    }
}

/// Writes an event to the output `target`, or to every output.
fn write_routed(outs: &mut Vec<Vec<u8>>, target: Option<usize>, ev: &XmlEvent)
    requires
        target matches Some(i) ==> i < old(outs).len(),
    ensures
        final(outs).len() == old(outs).len(),
        forall|j: int|
            0 <= j < old(outs).len() ==> (#[trigger] final(outs)@[j])@ == if target is None || target
                == Some(j as usize) {
                old(outs)@[j]@ + encode_utf8(xml_markup(ev@))
            } else {
                old(outs)@[j]@
            },
{
    match target {
        Some(i) => {
            xml_write_event(&mut outs[i], ev);
        },
        None => {
            let mut j: usize = 0;
            while j < outs.len()
                invariant
                    outs.len() == old(outs).len(),
                    j <= outs.len(),
                    target is None,
                    forall|m: int|
                        0 <= m < j ==> (#[trigger] outs@[m])@ == old(outs)@[m]@ + encode_utf8(
                            xml_markup(ev@),
                        ),
                    forall|m: int| j <= m < outs.len() ==> #[trigger] outs@[m] == old(outs)@[m],
                decreases outs.len() - j,
            {
                xml_write_event(&mut outs[j], ev);
                j = j + 1;
            }
        },
    }
}

/// The executable state of a dissection: the bytes written to each output, and for each output
/// the output that was current before its object started and the nesting depth of that object's
/// start tag (`0` when its object is not being copied); the current output and nesting depth.
struct DissectMachine {
    outs: Vec<Vec<u8>>,
    prevs: Vec<Option<usize>>,
    nestings: Vec<usize>,
    context_idx: Option<usize>,
    current_nesting: usize,
}

/// The per-output links of the machine represent the stack of objects being copied.
spec fn links_ok(
    prevs: Seq<Option<usize>>,
    nestings: Seq<usize>,
    ctx: Option<usize>,
    stack: Seq<(usize, nat)>,
    depth: nat,
    n: nat,
) -> bool {
    &&& n <= usize::MAX
    &&& prevs.len() == n
    &&& nestings.len() == n
    &&& ctx == stack_target(stack)
    &&& forall|j: int|
        0 <= j < stack.len() ==> {
            &&& (#[trigger] stack[j]).0 < n
            &&& nestings[stack[j].0 as int] == stack[j].1
            &&& prevs[stack[j].0 as int] == if j == 0 {
                None
            } else {
                Some(stack[j - 1].0)
            }
            &&& 1 <= stack[j].1 <= depth
        }
    &&& forall|j: int, k: int| 0 <= j < k < stack.len() ==> (#[trigger] stack[j]).1 < (#[trigger] stack[k]).1
    &&& forall|x: int|
        0 <= x < n && !stack_has(stack, x as usize) ==> #[trigger] nestings[x] == 0 && prevs[x] is None
}

/// The outputs of the machine hold what the dissection wrote.
spec fn outs_ok(outs: Seq<Vec<u8>>, souts: Seq<Seq<u8>>, n: nat) -> bool {
    &&& outs.len() == n
    &&& souts.len() == n
    &&& forall|j: int| 0 <= j < n ==> (#[trigger] outs[j])@ == souts[j]
}

/// The machine `m` represents the state `st` of a dissection into `n` outputs.
spec fn machine_state(m: DissectMachine, st: DissectState, n: nat) -> bool {
    &&& outs_ok(m.outs@, st.outs, n)
    &&& links_ok(m.prevs@, m.nestings@, m.context_idx, st.stack, st.depth, n)
    &&& m.current_nesting == st.depth
}

proof fn lemma_links_member(
    prevs: Seq<Option<usize>>,
    nestings: Seq<usize>,
    ctx: Option<usize>,
    stack: Seq<(usize, nat)>,
    depth: nat,
    n: nat,
    i: usize,
)
    requires
        links_ok(prevs, nestings, ctx, stack, depth, n),
        i < n,
    ensures
        stack_has(stack, i) <==> nestings[i as int] != 0,
{
    if stack_has(stack, i) {
        let j = choose|j: int| 0 <= j < stack.len() && (#[trigger] stack[j]).0 == i;
        assert(nestings[i as int] == stack[j].1);
    }
}

proof fn lemma_links_deepen(
    prevs: Seq<Option<usize>>,
    nestings: Seq<usize>,
    ctx: Option<usize>,
    stack: Seq<(usize, nat)>,
    depth: nat,
    n: nat,
)
    requires
        links_ok(prevs, nestings, ctx, stack, depth, n),
    ensures
        links_ok(prevs, nestings, ctx, stack, depth + 1, n),
{
}

proof fn lemma_links_push(
    prevs: Seq<Option<usize>>,
    nestings: Seq<usize>,
    ctx: Option<usize>,
    stack: Seq<(usize, nat)>,
    depth: nat,
    n: nat,
    i: usize,
)
    requires
        links_ok(prevs, nestings, ctx, stack, depth, n),
        i < n,
        !stack_has(stack, i),
        depth + 1 <= usize::MAX,
    ensures
        links_ok(
            prevs.update(i as int, ctx),
            nestings.update(i as int, (depth + 1) as usize),
            Some(i),
            stack.push((i, depth + 1)),
            depth + 1,
            n,
        ),
{
    let s = stack.push((i, depth + 1));
    let p = prevs.update(i as int, ctx);
    let q = nestings.update(i as int, (depth + 1) as usize);
    assert forall|j: int| 0 <= j < stack.len() implies (#[trigger] stack[j]).0 != i by {
        if stack[j].0 == i {
            assert(stack_has(stack, i));
        }
    }
    assert forall|j: int|
        0 <= j < s.len() implies {
            &&& (#[trigger] s[j]).0 < n
            &&& q[s[j].0 as int] == s[j].1
            &&& p[s[j].0 as int] == if j == 0 {
                None
            } else {
                Some(s[j - 1].0)
            }
            &&& 1 <= s[j].1 <= depth + 1
        } by {
        if j < stack.len() {
            assert(s[j] == stack[j]);
            if j > 0 {
                assert(s[j - 1] == stack[j - 1]);
            }
        } else {
            if j > 0 {
                assert(s[j - 1] == stack[j - 1]);
            }
        }
    }
    assert forall|x: int| 0 <= x < n && !stack_has(s, x as usize) implies #[trigger] q[x] == 0
        && p[x] is None by {
        if x == i as int {
            assert(s[s.len() - 1].0 == i);
            assert(stack_has(s, i));
        } else if stack_has(stack, x as usize) {
            let j = choose|j: int| 0 <= j < stack.len() && (#[trigger] stack[j]).0 == x as usize;
            assert(s[j] == stack[j]);
        } else {
            assert(q[x] == nestings[x]);
            assert(p[x] == prevs[x]);
        }
    }
    assert forall|j: int, k: int| 0 <= j < k < s.len() implies (#[trigger] s[j]).1 < (#[trigger] s[k]).1 by {
        if k < stack.len() {
            assert(s[j] == stack[j]);
            assert(s[k] == stack[k]);
        } else {
            assert(s[j] == stack[j]);
        }
    }
}

#[verifier::rlimit(60)]
#[verifier::spinoff_prover]
proof fn lemma_links_pop(
    prevs: Seq<Option<usize>>,
    nestings: Seq<usize>,
    ctx: Option<usize>,
    stack: Seq<(usize, nat)>,
    depth: nat,
    n: nat,
    idx: usize,
)
    requires
        links_ok(prevs, nestings, ctx, stack, depth, n),
        depth > 0,
        ctx == Some(idx),
        nestings[idx as int] == depth,
    ensures
        stack.len() > 0 && stack.last().1 == depth,
        links_ok(
            prevs.update(idx as int, None),
            nestings.update(idx as int, 0),
            prevs[idx as int],
            stack.drop_last(),
            (depth - 1) as nat,
            n,
        ),
{
    let s = stack.drop_last();
    let p = prevs.update(idx as int, None);
    let q = nestings.update(idx as int, 0);
    let top = stack.len() - 1;
    assert(stack[top].0 == idx);
    assert forall|j: int| 0 <= j < s.len() implies (#[trigger] s[j]).0 != idx by {
        assert(s[j] == stack[j]);
        assert(stack[j].1 < stack[top].1);
    }
    assert forall|j: int|
        0 <= j < s.len() implies {
            &&& (#[trigger] s[j]).0 < n
            &&& q[s[j].0 as int] == s[j].1
            &&& p[s[j].0 as int] == if j == 0 {
                None
            } else {
                Some(s[j - 1].0)
            }
            &&& 1 <= s[j].1 <= depth - 1
        } by {
        assert(s[j] == stack[j]);
        assert(stack[j].1 < stack[top].1);
        if j > 0 {
            assert(s[j - 1] == stack[j - 1]);
        }
    }
    assert forall|x: int| 0 <= x < n && !stack_has(s, x as usize) implies #[trigger] q[x] == 0
        && p[x] is None by {
        if x != idx as int && stack_has(stack, x as usize) {
            let j = choose|j: int| 0 <= j < stack.len() && (#[trigger] stack[j]).0 == x as usize;
            if j < top {
                assert(s[j] == stack[j]);
            }
        }
    }
    assert forall|j: int, k: int| 0 <= j < k < s.len() implies (#[trigger] s[j]).1 < (#[trigger] s[k]).1 by {
        assert(s[j] == stack[j]);
        assert(s[k] == stack[k]);
    }
    if top > 0 {
        assert(stack_target(s) == Some(stack[top - 1].0));
    }
}

proof fn lemma_links_keep(
    prevs: Seq<Option<usize>>,
    nestings: Seq<usize>,
    ctx: Option<usize>,
    stack: Seq<(usize, nat)>,
    depth: nat,
    n: nat,
)
    requires
        links_ok(prevs, nestings, ctx, stack, depth, n),
        depth > 0,
        ctx matches Some(idx) ==> nestings[idx as int] != depth,
    ensures
        !(stack.len() > 0 && stack.last().1 == depth),
        links_ok(prevs, nestings, ctx, stack, (depth - 1) as nat, n),
{
    if stack.len() > 0 {
        let top = stack.len() - 1;
        assert(stack[top].1 != depth);
        assert forall|j: int| 0 <= j < stack.len() implies (#[trigger] stack[j]).1 <= depth - 1 by {
            if j < top {
                assert(stack[j].1 < stack[top].1);
            }
        }
    }
}

proof fn lemma_outs_route(
    before: Seq<Vec<u8>>,
    after: Seq<Vec<u8>>,
    souts: Seq<Seq<u8>>,
    n: nat,
    target: Option<usize>,
    bytes: Seq<u8>,
)
    requires
        outs_ok(before, souts, n),
        n <= usize::MAX,
        target matches Some(i) ==> i < n,
        after.len() == before.len(),
        forall|j: int|
            0 <= j < before.len() ==> (#[trigger] after[j])@ == if target is None || target == Some(
                j as usize,
            ) {
                before[j]@ + bytes
            } else {
                before[j]@
            },
    ensures
        outs_ok(after, route_bytes(souts, target, bytes), n),
{
    let r = route_bytes(souts, target, bytes);
    assert(r.len() == n);
    assert forall|j: int| 0 <= j < n implies (#[trigger] after[j])@ == r[j] by {
        match target {
            Some(i) => {
                if j != i as int {
                    assert(j as usize != i);
                    assert(target != Some(j as usize));
                }
            },
            None => {},
        }
    }
}

proof fn lemma_machine_outs(m: DissectMachine, st: DissectState, n: nat)
    requires
        machine_state(m, st, n),
    ensures
        m.outs.len() == n,
        st.outs.len() == n,
        forall|j: int| 0 <= j < n ==> (#[trigger] m.outs@[j])@ == st.outs[j],
{
}

proof fn lemma_step_depth(st: DissectState, item: XmlItem, ids: Seq<Seq<Seq<char>>>)
    requires
        dissect_step(st, item, ids) is Some,
        item.kind == XmlEventKind::End ==> st.depth > 0,
    ensures
        dissect_step(st, item, ids)->0.depth == st.depth + if item.kind == XmlEventKind::Start {
            1int
        } else if item.kind == XmlEventKind::End {
            -1int
        } else {
            0int
        },
{
    reveal(dissect_step);
}

/// A start tag.
fn machine_start(
    m: &mut DissectMachine,
    ev: &XmlEvent,
    ids: &Vec<Vec<String>>,
    Ghost(st): Ghost<DissectState>,
    Ghost(n): Ghost<nat>,
) -> (ok: bool)
    requires
        machine_state(*old(m), st, n),
        ev@.kind == XmlEventKind::Start,
        xml_char_boundary(ev.content@, ev.name_len as nat),
        ids.len() <= n,
    ensures
        ok == dissect_step(st, ev@, ids.deep_view()) is Some,
        ok ==> machine_state(*final(m), dissect_step(st, ev@, ids.deep_view())->0, n),
{
    let ghost idsv = ids.deep_view();
    let ghost bytes = encode_utf8(xml_markup(ev@));
    if m.current_nesting == usize::MAX {
        proof {
            reveal(dissect_step);
        }
        return false;
    }
    let ghost depth = st.depth + 1;
    m.current_nesting = m.current_nesting + 1;
    let mut target: Option<usize> = None;
    if xml_event_name_is(ev, "object") {
        target = object_target_of(ev, ids);
    }
    proof {
        lemma_object_target_bound(xml_attributes_of(ev.content@, ev.name_len as nat), idsv);
        assert(target == if xml_item_name_is(ev@, "object"@) {
            object_target(xml_attributes_of(ev@.content, ev@.name_len), idsv)
        } else {
            None
        });
    }
    let ghost old_outs = m.outs@;
    match target {
        Some(new_idx) => {
            proof {
                lemma_links_member(m.prevs@, m.nestings@, m.context_idx, st.stack, st.depth, n, new_idx);
            }
            if m.nestings[new_idx] != 0 {
                proof {
                    reveal(dissect_step);
                }
                return false;
            }
            proof {
                lemma_links_push(m.prevs@, m.nestings@, m.context_idx, st.stack, st.depth, n, new_idx);
            }
            m.prevs.set(new_idx, m.context_idx);
            m.nestings.set(new_idx, m.current_nesting);
            m.context_idx = Some(new_idx);
            write_routed(&mut m.outs, m.context_idx, ev);
            proof {
                lemma_outs_route(old_outs, m.outs@, st.outs, n, Some(new_idx), bytes);
                reveal(dissect_step);
                assert(dissect_step(st, ev@, idsv) == Some(
                    DissectState {
                        outs: route_bytes(st.outs, Some(new_idx), bytes),
                        stack: st.stack.push((new_idx, depth)),
                        depth,
                    },
                ));
            }
        },
        None => {
            proof {
                lemma_links_deepen(m.prevs@, m.nestings@, m.context_idx, st.stack, st.depth, n);
            }
            write_routed(&mut m.outs, m.context_idx, ev);
            proof {
                lemma_outs_route(old_outs, m.outs@, st.outs, n, stack_target(st.stack), bytes);
                reveal(dissect_step);
                assert(dissect_step(st, ev@, idsv) == Some(
                    DissectState {
                        outs: route_bytes(st.outs, stack_target(st.stack), bytes),
                        stack: st.stack,
                        depth,
                    },
                ));
            }
        },
    }
    true
}

/// An end tag.
fn machine_end(
    m: &mut DissectMachine,
    ev: &XmlEvent,
    ids: &Vec<Vec<String>>,
    Ghost(st): Ghost<DissectState>,
    Ghost(n): Ghost<nat>,
)
    requires
        machine_state(*old(m), st, n),
        ev@.kind == XmlEventKind::End,
        st.depth > 0,
    ensures
        dissect_step(st, ev@, ids.deep_view()) is Some,
        machine_state(*final(m), dissect_step(st, ev@, ids.deep_view())->0, n),
{
    let ghost idsv = ids.deep_view();
    let ghost bytes = encode_utf8(xml_markup(ev@));
    let ghost old_outs = m.outs@;
    write_routed(&mut m.outs, m.context_idx, ev);
    proof {
        lemma_outs_route(old_outs, m.outs@, st.outs, n, stack_target(st.stack), bytes);
    }
    let ghost closes = st.stack.len() > 0 && st.stack.last().1 == st.depth;
    let mut popped = false;
    if let Some(idx) = m.context_idx {
        if m.current_nesting == m.nestings[idx] {
            proof {
                lemma_links_pop(m.prevs@, m.nestings@, m.context_idx, st.stack, st.depth, n, idx);
            }
            m.context_idx = m.prevs[idx];
            m.prevs.set(idx, None);
            m.nestings.set(idx, 0);
            popped = true;
        }
    }
    if !popped {
        proof {
            lemma_links_keep(m.prevs@, m.nestings@, m.context_idx, st.stack, st.depth, n);
        }
    }
    m.current_nesting = m.current_nesting - 1;
    proof {
        reveal(dissect_step);
        assert(dissect_step(st, ev@, idsv) == Some(
            DissectState {
                outs: route_bytes(st.outs, stack_target(st.stack), bytes),
                stack: if closes {
                    st.stack.drop_last()
                } else {
                    st.stack
                },
                depth: (st.depth - 1) as nat,
            },
        ));
    }
}

/// Any other event: it goes to the current output.
fn machine_other(
    m: &mut DissectMachine,
    ev: &XmlEvent,
    ids: &Vec<Vec<String>>,
    Ghost(st): Ghost<DissectState>,
    Ghost(n): Ghost<nat>,
)
    requires
        machine_state(*old(m), st, n),
        ev@.kind != XmlEventKind::Start,
        ev@.kind != XmlEventKind::End,
    ensures
        dissect_step(st, ev@, ids.deep_view()) is Some,
        machine_state(*final(m), dissect_step(st, ev@, ids.deep_view())->0, n),
{
    let ghost bytes = encode_utf8(xml_markup(ev@));
    let ghost old_outs = m.outs@;
    write_routed(&mut m.outs, m.context_idx, ev);
    proof {
        lemma_outs_route(old_outs, m.outs@, st.outs, n, stack_target(st.stack), bytes);
        reveal(dissect_step);
    }
}

/// Every end tag of a prefix of a stream closes a start tag that is still open, as in the stream.
proof fn lemma_end_tags_nested_prefix(s: Seq<Option<XmlItem>>, k: int)
    requires
        xml_end_tags_nested(s),
        0 <= k <= s.len(),
    ensures
        xml_end_tags_nested(s.take(k)),
{
    assert forall|i: int| 0 <= i < s.take(k).len() && xml_item_is(#[trigger] s.take(k)[i], XmlEventKind::End) implies xml_open_depth(
        s.take(k).take(i),
    ) > 0 by {
        assert(s.take(k).take(i) =~= s.take(i));
        assert(s.take(k)[i] == s[i]);
    }
}

/// Dissects events that were read into `n` outputs: `None` where the dissection would re-enter
/// an object that is already being copied, or overflow the nesting depth; otherwise the bytes
/// each output receives.
pub fn dissect_xml_events(events: &Vec<XmlEvent>, n: usize, ids: &Vec<Vec<String>>) -> (r: Option<Vec<Vec<u8>>>)
    requires
        ids.len() <= n,
        xml_end_tags_nested(xml_event_items(events@)),
        xml_events_on_boundaries(events@),
    ensures
        match dissect_run(xml_event_items(events@), ids.deep_view(), n as nat) {
            None => r is None,
            Some(st) => r matches Some(v) && v.len() == n && forall|j: int|
                0 <= j < n ==> (#[trigger] v@[j])@ == st.outs[j],
        },
{
    let ghost items = xml_event_items(events@);
    let ghost idsv = ids.deep_view();
    let mut outs: Vec<Vec<u8>> = Vec::new();
    let mut prevs: Vec<Option<usize>> = Vec::new();
    let mut nestings: Vec<usize> = Vec::new();
    let mut k: usize = 0;
    while k < n
        invariant
            k <= n,
            outs.len() == k,
            prevs.len() == k,
            nestings.len() == k,
            forall|m: int| 0 <= m < k ==> (#[trigger] outs@[m])@ == Seq::<u8>::empty(),
            forall|m: int| 0 <= m < k ==> (#[trigger] prevs@[m]) is None,
            forall|m: int| 0 <= m < k ==> (#[trigger] nestings@[m]) == 0,
        decreases n - k,
    {
        outs.push(Vec::new());
        prevs.push(None);
        nestings.push(0);
        k = k + 1;
    }
    let mut m = DissectMachine { outs, prevs, nestings, context_idx: None, current_nesting: 0 };
    let ghost mut st = DissectState {
        outs: Seq::new(n as nat, |j: int| Seq::<u8>::empty()),
        stack: seq![],
        depth: 0,
    };
    assert(items.take(0) =~= Seq::<Option<XmlItem>>::empty());
    proof {
        assert(st.outs.len() == n);
        assert(links_ok(m.prevs@, m.nestings@, m.context_idx, st.stack, st.depth, n as nat));
    }
    let mut i: usize = 0;
    while i < events.len()
        invariant
            items == xml_event_items(events@),
            xml_end_tags_nested(items),
            xml_events_on_boundaries(events@),
            idsv == ids.deep_view(),
            ids.len() <= n,
            i <= events.len(),
            dissect_run(items.take(i as int), idsv, n as nat) == Some(st),
            st.depth == xml_open_depth(items.take(i as int)),
            machine_state(m, st, n as nat),
        decreases events.len() - i,
    {
        proof {
            assert(items.take(i + 1).drop_last() =~= items.take(i as int));
            assert(items.take(i + 1).last() == items[i as int]);
        }
        let ev = &events[i];
        assert(items[i as int] == Some(ev@));
        if ev.kind == XmlEventKind::Start {
            assert(xml_char_boundary(events@[i as int].content@, events@[i as int].name_len as nat));
            let ok = machine_start(&mut m, ev, ids, Ghost(st), Ghost(n as nat));
            if !ok {
                proof {
                    lemma_dissect_run_none_prefix(items, idsv, n as nat, i + 1);
                }
                return None;
            }
        } else if ev.kind == XmlEventKind::End {
            assert(xml_item_is(items[i as int], XmlEventKind::End));
            machine_end(&mut m, ev, ids, Ghost(st), Ghost(n as nat));
        } else {
            machine_other(&mut m, ev, ids, Ghost(st), Ghost(n as nat));
        }
        proof {
            lemma_step_depth(st, ev@, idsv);
            st = dissect_step(st, ev@, idsv)->0;
        }
        i = i + 1;
    }
    proof {
        lemma_machine_outs(m, st, n as nat);
        assert(items.take(i as int) =~= items);
    }
    Some(m.outs)
}

/// Reads the events of `input` and dissects them into `n` outputs; `None` where the dissection
/// would re-enter an object that is already being copied.
fn dissect_input(input: &[u8], n: usize, ids: &Vec<Vec<String>>) -> (r: Option<(Vec<Vec<u8>>, Result<(), WoabError>)>)
    requires
        ids.len() <= n,
    ensures
        match dissect_result(input@, ids.deep_view(), n as nat) {
            None => r is None,
            Some((outs, complete)) => r matches Some((v, res)) && v.len() == n && (forall|j: int|
                0 <= j < n ==> (#[trigger] v@[j])@ == outs[j]) && (complete <==> res is Ok) && (!complete
                ==> (res matches Err(WoabError::XmlError(_)))),
        },
{
    let (events, read) = xml_read_events(xml_reader_from_bytes(input));
    proof {
        let all = xml_parse_events(input@);
        lemma_end_tags_nested_prefix(all, all.len() - 1);
    }
    match dissect_xml_events(&events, n, ids) {
        None => None,
        Some(outs) => match read {
            Ok(()) => Some((outs, Ok(()))),
            Err(e) => Some((outs, Err(WoabError::XmlError(e)))),
        },
    }
}

/// Writes `written` through a cursor at the start of `target`: overwrites its first bytes and
/// extends it where `written` is longer.
fn cursor_write(target: &mut Vec<u8>, written: &Vec<u8>)
    ensures
        final(target)@ == cursor_overwrite(old(target)@, written@),
{
    let ghost init = target@;
    let mut j: usize = 0;
    while j < written.len()
        invariant
            init == old(target)@,
            j <= written.len(),
            target.len() == if j >= init.len() { j as int } else { init.len() as int },
            forall|m: int| 0 <= m < j ==> target@[m] == written@[m],
            forall|m: int| j <= m < init.len() ==> target@[m] == init[m],
        decreases written.len() - j,
    {
        if j < target.len() {
            target.set(j, written[j]);
        } else {
            target.push(written[j]);
        }
        j = j + 1;
    }
    assert(target@ =~= cursor_overwrite(init, written@));
}

/// Writes each output through a cursor at the start of its target.
fn write_outputs(targets: &mut Vec<Vec<u8>>, outs: &Vec<Vec<u8>>)
    requires
        outs.len() == old(targets).len(),
    ensures
        final(targets).len() == old(targets).len(),
        forall|j: int|
            0 <= j < old(targets).len() ==> (#[trigger] final(targets)@[j])@ == cursor_overwrite(
                old(targets)@[j]@,
                outs@[j]@,
            ),
{
    let n = targets.len();
    let mut j: usize = 0;
    while j < n
        invariant
            n == old(targets).len(),
            targets.len() == n,
            outs.len() == n,
            j <= n,
            forall|m: int|
                0 <= m < j ==> (#[trigger] targets@[m])@ == cursor_overwrite(old(targets)@[m]@, outs@[m]@),
            forall|m: int| j <= m < n ==> #[trigger] targets@[m] == old(targets)@[m],
        decreases n - j,
    {
        cursor_write(&mut targets[j], &outs[j]);
        j = j + 1;
    }
}

/// Dissects a builder XML into `targets`: each target `i` receives the objects whose id is listed
/// in `ids[i]` (with everything nested inside them), together with the markup outside of every
/// such object. The outputs are written through cursors at the start of the targets. Returns an
/// error if the XML cannot be read, after writing what was dissected up to that point.
///
/// An object listed for a target must not be nested inside another object of the same target.
pub fn dissect_builder_xml(input: &[u8], targets: &mut Vec<Vec<u8>>, ids: &Vec<Vec<String>>) -> (r:
    Result<(), WoabError>)
    requires
        ids.len() <= old(targets).len(),
        dissect_result(input@, ids.deep_view(), old(targets).len() as nat) is Some,
    ensures
        final(targets).len() == old(targets).len(),
        ({
            let (outs, complete) = dissect_result(
                input@,
                ids.deep_view(),
                old(targets).len() as nat,
            )->0;
            &&& complete <==> r is Ok
            &&& (!complete ==> (r matches Err(WoabError::XmlError(_))))
            &&& forall|j: int|
                0 <= j < old(targets).len() ==> (#[trigger] final(targets)@[j])@ == cursor_overwrite(
                    old(targets)@[j]@,
                    outs[j],
                )
        }),
{
    let n = targets.len();
    let (outs, res) = match dissect_input(input, n, ids) {
        Some(x) => x,
        None => vstd::pervasive::unreached(),
    };
    write_outputs(targets, &outs);
    res
}

/// Like [`dissect_builder_xml`], but decides whether the dissection would re-enter an object
/// that is already being copied before writing; in that case nothing is written and `None` is
/// returned.
pub fn try_dissect_builder_xml(input: &[u8], targets: &mut Vec<Vec<u8>>, ids: &Vec<Vec<String>>) -> (r:
    Option<Result<(), WoabError>>)
    requires
        ids.len() <= old(targets).len(),
    ensures
        final(targets).len() == old(targets).len(),
        match dissect_result(input@, ids.deep_view(), old(targets).len() as nat) {
            None => r is None && final(targets)@ == old(targets)@,
            Some((outs, complete)) => r matches Some(res) && (complete <==> res is Ok) && (!complete
                ==> (res matches Err(WoabError::XmlError(_)))) && forall|j: int|
                0 <= j < old(targets).len() ==> (#[trigger] final(targets)@[j])@ == cursor_overwrite(
                    old(targets)@[j]@,
                    outs[j],
                ),
        },
{
    let n = targets.len();
    match dissect_input(input, n, ids) {
        None => None,
        Some((outs, res)) => {
            write_outputs(targets, &outs);
            Some(res)
        },
    }
}


/// The markup of a sequence of events, as UTF-8 bytes.
pub open spec fn markup_bytes(items: Seq<Option<XmlItem>>) -> Seq<u8>
    decreases items.len(),
{
    if items.len() == 0 {
        Seq::empty()
    } else {
        markup_bytes(items.drop_last()) + match items.last() {
            Some(item) => encode_utf8(xml_markup(item)),
            None => Seq::empty(),
        }
    }
}

/// The markup of the events read from a document, up to its end or to the first error.
pub open spec fn document_markup(input: Seq<u8>) -> Seq<u8> {
    let events = xml_parse_events(input);
    markup_bytes(events.take(events.len() - 1))
}

proof fn lemma_factory_index_unlisted(ids: Seq<Seq<Seq<char>>>, id: Seq<char>)
    requires
        forall|i: int| 0 <= i < ids.len() ==> #[trigger] ids[i].len() == 0,
    ensures
        factory_index(ids, id) is None,
    decreases ids.len(),
{
    if ids.len() > 0 {
        lemma_factory_index_unlisted(ids.drop_last(), id);
        assert(ids.last().len() == 0);
    }
}

proof fn lemma_object_target_unlisted(attrs: Seq<Option<(Seq<char>, Seq<char>)>>, ids: Seq<Seq<Seq<char>>>)
    requires
        forall|i: int| 0 <= i < ids.len() ==> #[trigger] ids[i].len() == 0,
    ensures
        object_target(attrs, ids) is None,
    decreases attrs.len(),
{
    if attrs.len() > 0 {
        lemma_object_target_unlisted(attrs.drop_last(), ids);
        if let Some((key, value)) = attrs.last() {
            lemma_factory_index_unlisted(ids, value);
        }
    }
}

proof fn lemma_dissect_run_unlisted(items: Seq<Option<XmlItem>>, ids: Seq<Seq<Seq<char>>>, n: nat)
    requires
        forall|i: int| 0 <= i < ids.len() ==> #[trigger] ids[i].len() == 0,
        dissect_run(items, ids, n) is Some,
    ensures
        dissect_run(items, ids, n)->0.stack.len() == 0,
        dissect_run(items, ids, n)->0.outs == Seq::new(n, |j: int| markup_bytes(items)),
    decreases items.len(),
{
    if items.len() == 0 {
        assert(dissect_run(items, ids, n)->0.outs =~= Seq::new(n, |j: int| markup_bytes(items)));
    } else {
        let prev = items.drop_last();
        lemma_dissect_run_unlisted(prev, ids, n);
        let st = dissect_run(prev, ids, n)->0;
        match items.last() {
            Some(item) => {
                reveal(dissect_step);
                if item.kind == XmlEventKind::Start && xml_item_name_is(item, "object"@) {
                    lemma_object_target_unlisted(xml_attributes_of(item.content, item.name_len), ids);
                }
                let st2 = dissect_step(st, item, ids)->0;
                assert(st2.outs =~= Seq::new(n, |j: int| markup_bytes(items)));
            },
            None => {
                assert(st.outs =~= Seq::new(n, |j: int| markup_bytes(items)));
            },
        }
    }
}

/// Where no factory lists an object, dissecting a document gives every output the whole markup
/// that was read.
pub proof fn lemma_dissect_without_factory_objects(input: Seq<u8>, ids: Seq<Seq<Seq<char>>>, n: nat)
    requires
        forall|i: int| 0 <= i < ids.len() ==> #[trigger] ids[i].len() == 0,
        dissect_result(input, ids, n) is Some,
    ensures
        (dissect_result(input, ids, n)->0).0.len() == n,
        forall|j: int| 0 <= j < n ==> (#[trigger] (dissect_result(input, ids, n)->0).0[j]) == document_markup(input),
{
    let events = xml_parse_events(input);
    lemma_dissect_run_unlisted(events.take(events.len() - 1), ids, n);
}

/// A target that starts empty receives exactly its output, and one that holds more than its
/// output keeps its tail.
pub proof fn lemma_cursor_overwrite(init: Seq<u8>, written: Seq<u8>)
    ensures
        cursor_overwrite(Seq::empty(), written) == written,
        cursor_overwrite(init, written).take(written.len() as int) == written,
        cursor_overwrite(init, written).len() == if init.len() > written.len() {
            init.len()
        } else {
            written.len()
        },
{
    assert(cursor_overwrite(init, written).take(written.len() as int) =~= written);
}

/// The factory of the innermost listed object that encloses an event: the object the event
/// starts, if it is a listed `<object>` start tag, or else the innermost object being copied;
/// `None` when no listed object encloses it.
pub open spec fn enclosing_factory(st: DissectState, item: XmlItem, ids: Seq<Seq<Seq<char>>>) -> Option<usize> {
    let own = if item.kind == XmlEventKind::Start && xml_item_name_is(item, "object"@) {
        object_target(xml_attributes_of(item.content, item.name_len), ids)
    } else {
        None
    };
    match own {
        Some(i) => Some(i),
        None => stack_target(st.stack),
    }
}

/// A state of a dissection: every factory and every object being copied has an output.
pub open spec fn dissect_state_valid(st: DissectState, ids: Seq<Seq<Seq<char>>>) -> bool {
    &&& ids.len() <= st.outs.len()
    &&& forall|j: int| 0 <= j < st.stack.len() ==> (#[trigger] st.stack[j]).0 < st.outs.len()
}

proof fn lemma_dissect_step_valid(st: DissectState, item: XmlItem, ids: Seq<Seq<Seq<char>>>)
    requires
        dissect_state_valid(st, ids),
        dissect_step(st, item, ids) is Some,
    ensures
        dissect_state_valid(dissect_step(st, item, ids)->0, ids),
{
    reveal(dissect_step);
    lemma_object_target_bound(xml_attributes_of(item.content, item.name_len), ids);
    let next = dissect_step(st, item, ids)->0;
    assert forall|j: int| 0 <= j < next.stack.len() implies (#[trigger] next.stack[j]).0 < next.outs.len() by {
        if j < st.stack.len() {
            assert(next.stack[j] == st.stack[j]);
        }
    }
}

/// Every state that a dissection into `n` outputs reaches is valid.
pub proof fn lemma_dissect_run_valid(items: Seq<Option<XmlItem>>, ids: Seq<Seq<Seq<char>>>, n: nat)
    requires
        ids.len() <= n,
        dissect_run(items, ids, n) is Some,
    ensures
        dissect_state_valid(dissect_run(items, ids, n)->0, ids),
    decreases items.len(),
{
    if items.len() > 0 {
        lemma_dissect_run_valid(items.drop_last(), ids, n);
        if let Some(item) = items.last() {
            lemma_dissect_step_valid(dissect_run(items.drop_last(), ids, n)->0, item, ids);
        }
    }
}

/// Each event's markup goes to the output of the innermost listed object that encloses it (the
/// object it starts included) and to no other output; an event that no listed object encloses
/// goes to every output.
pub proof fn lemma_dissect_step_routes_markup(st: DissectState, item: XmlItem, ids: Seq<Seq<Seq<char>>>)
    requires
        dissect_state_valid(st, ids),
        dissect_step(st, item, ids) is Some,
    ensures
        ({
            let next = dissect_step(st, item, ids)->0;
            let bytes = encode_utf8(xml_markup(item));
            &&& next.outs.len() == st.outs.len()
            &&& forall|j: int|
                0 <= j < st.outs.len() ==> #[trigger] next.outs[j] == match enclosing_factory(st, item, ids) {
                    Some(i) => if j == i {
                        st.outs[j] + bytes
                    } else {
                        st.outs[j]
                    },
                    None => st.outs[j] + bytes,
                }
        }),
{
    reveal(dissect_step);
    lemma_object_target_bound(xml_attributes_of(item.content, item.name_len), ids);
    let next = dissect_step(st, item, ids)->0;
    let bytes = encode_utf8(xml_markup(item));
    let target = enclosing_factory(st, item, ids);
    if st.stack.len() > 0 {
        assert(st.stack[st.stack.len() - 1].0 < st.outs.len());
    }
    assert(next.outs == route_bytes(st.outs, target, bytes));
    assert(next.outs.len() == st.outs.len());
    assert forall|j: int| 0 <= j < st.outs.len() implies #[trigger] next.outs[j] == match target {
        Some(i) => if j == i {
            st.outs[j] + bytes
        } else {
            st.outs[j]
        },
        None => st.outs[j] + bytes,
    } by {
        if let Some(i) = target {
            if j != i {
                assert(route_bytes(st.outs, target, bytes)[j] == st.outs[j]);
            }
        }
    }
}

/// The factory an id belongs to is the first factory whose list holds it; an id that no list
/// holds belongs to none. (The lists are indexed by `usize`.)
pub proof fn lemma_factory_index_first_listing(ids: Seq<Seq<Seq<char>>>, id: Seq<char>)
    requires
        ids.len() <= usize::MAX,
    ensures
        match factory_index(ids, id) {
            Some(i) => i < ids.len() && ids[i as int].contains(id) && forall|j: int|
                0 <= j < i ==> !(#[trigger] ids[j]).contains(id),
            None => forall|j: int| 0 <= j < ids.len() ==> !(#[trigger] ids[j]).contains(id),
        },
    decreases ids.len(),
{
    if ids.len() > 0 {
        let prev = ids.drop_last();
        let last = ids.len() - 1;
        lemma_factory_index_first_listing(prev, id);
        assert(ids.last() == ids[last]);
        match factory_index(prev, id) {
            Some(i) => {
                assert(ids[i as int] == prev[i as int]);
                assert forall|j: int| 0 <= j < i implies !(#[trigger] ids[j]).contains(id) by {
                    assert(ids[j] == prev[j]);
                }
            },
            None => {
                assert forall|j: int| 0 <= j < last implies !(#[trigger] ids[j]).contains(id) by {
                    assert(ids[j] == prev[j]);
                }
            },
        }
    }
}

/// An attribute that claims an object for a factory: a well-formed `id` attribute whose value
/// some factory lists.
pub open spec fn claims_object(attr: Option<(Seq<char>, Seq<char>)>, ids: Seq<Seq<Seq<char>>>) -> bool {
    attr matches Some((key, value)) && key == "id"@ && factory_index(ids, value) is Some
}

/// The factory of an `<object>` tag does not depend on where its `id` attribute stands: it is
/// the factory of the first attribute, at any position, that claims the object; a tag with no
/// such attribute belongs to no factory.
pub proof fn lemma_object_target_first_claiming_attribute(
    attrs: Seq<Option<(Seq<char>, Seq<char>)>>,
    ids: Seq<Seq<Seq<char>>>,
)
    ensures
        match object_target(attrs, ids) {
            Some(i) => exists|k: int|
                0 <= k < attrs.len() && #[trigger] claims_object(attrs[k], ids) && factory_index(ids, (attrs[k]->0).1)
                    == Some(i) && forall|m: int| 0 <= m < k ==> !claims_object(#[trigger] attrs[m], ids),
            None => forall|k: int| 0 <= k < attrs.len() ==> !claims_object(#[trigger] attrs[k], ids),
        },
    decreases attrs.len(),
{
    if attrs.len() > 0 {
        let prev = attrs.drop_last();
        let last = attrs.len() - 1;
        lemma_object_target_first_claiming_attribute(prev, ids);
        assert forall|m: int| 0 <= m < prev.len() implies prev[m] == attrs[m] by {}
        match object_target(prev, ids) {
            Some(i) => {
                let k = choose|k: int|
                    0 <= k < prev.len() && #[trigger] claims_object(prev[k], ids) && factory_index(ids, (prev[k]->0).1)
                        == Some(i) && forall|m: int| 0 <= m < k ==> !claims_object(#[trigger] prev[m], ids);
                assert(attrs[k] == prev[k]);
                assert forall|m: int| 0 <= m < k implies !claims_object(#[trigger] attrs[m], ids) by {
                    assert(attrs[m] == prev[m]);
                }
            },
            None => {
                assert(attrs.last() == attrs[last]);
                if claims_object(attrs[last], ids) {
                    assert forall|m: int| 0 <= m < last implies !claims_object(#[trigger] attrs[m], ids) by {
                        assert(attrs[m] == prev[m]);
                    }
                } else {
                    assert forall|k: int| 0 <= k < attrs.len() implies !claims_object(#[trigger] attrs[k], ids) by {
                        if k < last {
                            assert(attrs[k] == prev[k]);
                        }
                    }
                }
            },
        }
    }
}

} // verus!
