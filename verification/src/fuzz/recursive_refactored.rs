//! The harness over maps, lists and texts with nested containers.
use vstd::prelude::*;
use crate::common::{
    ContainerID, ContainerType, LoroValue, LoroValueView, PeerID, cid_type, decimal_chars,
    pairs_view, push_decimal, string_from_chars,
};
use crate::common::ContainerIdView;
use crate::encoding::reordered_value::cids_view;
use crate::fuzz::sync::{
    doc_grows, edit_outcome, edited, lemma_edited_grows, lemma_merge_same, merged, recorded_on, sent,
};
use crate::loro::{LoroDoc, char_values, log_wf, seq_origin, seq_targets};
use crate::oplog::{OpContentView, OpValue, OpView};
use crate::state::{doc_value, roots, roots_value, seq_state, visible};
use crate::version::{VersionVector, log_vv, ops_within};

verus! {

/// A value the harness writes: nothing (a delete), an integer, or a new
/// child container.
#[derive(Debug, Clone, Copy, PartialEq, Eq, Structural)]
pub enum FuzzValue {
    Null,
    I32(i32),
    Container(ContainerType),
}

/// One step of a harness run.
#[derive(Debug, Clone, Copy, PartialEq, Eq, Structural)]
pub enum Action {
    Mapping { site: u8, container_idx: u8, key: u8, value: FuzzValue },
    List { site: u8, container_idx: u8, key: u8, value: FuzzValue },
    Text { site: u8, container_idx: u8, pos: u8, value: u16, is_del: bool },
    Sync { from: u8, to: u8 },
    SyncAll,
}

/// The value a non-container fuzz value writes.
pub fn fuzz_value_to_loro(v: FuzzValue) -> (r: LoroValue)
    requires
        !(v is Container),
    ensures
        v is Null ==> r@ == crate::common::LoroValueView::Null,
        v is I32 ==> r@ == crate::common::LoroValueView::I64(v->I32_0 as i64),
{
    match v {
        FuzzValue::Null => LoroValue::Null,
        FuzzValue::I32(i) => LoroValue::I64(i as i64),
        FuzzValue::Container(_) => LoroValue::Null,
    }
}

/// One replica with the containers it edits and the values it has seen at
/// each version.
pub struct Actor {
    pub peer: PeerID,
    pub loro: LoroDoc,
    pub map_containers: Vec<ContainerID>,
    pub list_containers: Vec<ContainerID>,
    pub text_containers: Vec<ContainerID>,
    pub history: Vec<(VersionVector, LoroValue)>,
}

fn copy_ids(v: &Vec<ContainerID>) -> (r: Vec<ContainerID>)
    ensures
        r@.len() == v@.len(),
        forall|i: int| 0 <= i < v@.len() ==> #[trigger] r@[i]@ == v@[i]@,
{
    let mut r: Vec<ContainerID> = Vec::new();
    let mut i: usize = 0;
    while i < v.len()
        invariant
            i <= v.len(),
            r@.len() == i,
            forall|k: int| 0 <= k < i ==> #[trigger] r@[k]@ == v@[k]@,
        decreases v.len() - i,
    {
        r.push(v[i].duplicate());
        i += 1;
    }
    r
}

fn contains_id(v: &Vec<ContainerID>, c: &ContainerID) -> (r: bool)
    ensures
        r == exists|i: int| 0 <= i < v@.len() && #[trigger] v@[i]@ == c@,
{
    let mut i: usize = 0;
    while i < v.len()
        invariant
            i <= v.len(),
            forall|k: int| 0 <= k < i ==> #[trigger] v@[k]@ != c@,
        decreases v.len() - i,
    {
        if v[i].same(c) {
            return true;
        }
        i += 1;
    }
    false
}

/// The ids of `from`, in order, that neither `seen` nor an earlier id of
/// `from` holds.
pub open spec fn fresh_ids(from: Seq<ContainerIdView>, seen: Seq<ContainerIdView>) -> Seq<ContainerIdView>
    decreases from.len(),
{
    if from.len() == 0 {
        Seq::empty()
    } else if seen.contains(from[0]) {
        fresh_ids(from.drop_first(), seen)
    } else {
        seq![from[0]] + fresh_ids(from.drop_first(), seen.push(from[0]))
    }
}

/// Appends to `into` the ids of `from` that `visited` lacks, and records
/// them as visited.
fn merge_ids(into: &mut Vec<ContainerID>, from: &Vec<ContainerID>, visited: &mut Vec<ContainerID>)
    ensures
        cids_view(final(into)@) == cids_view(old(into)@) + fresh_ids(cids_view(from@), cids_view(old(visited)@)),
        cids_view(final(visited)@) == cids_view(old(visited)@) + fresh_ids(
            cids_view(from@),
            cids_view(old(visited)@),
        ),
{
    let ghost fv = cids_view(from@);
    let ghost total = fresh_ids(fv, cids_view(visited@));
    let ghost added: Seq<ContainerIdView> = Seq::empty();
    let mut i: usize = 0;
    assert(fv.skip(0) =~= fv);
    assert(cids_view(into@) =~= cids_view(old(into)@) + added);
    assert(cids_view(visited@) =~= cids_view(old(visited)@) + added);
    while i < from.len()
        invariant
            i <= from@.len(),
            fv == cids_view(from@),
            total == fresh_ids(fv, cids_view(old(visited)@)),
            cids_view(into@) == cids_view(old(into)@) + added,
            cids_view(visited@) == cids_view(old(visited)@) + added,
            added + fresh_ids(fv.skip(i as int), cids_view(visited@)) == total,
        decreases from.len() - i,
    {
        let ghost sk = fv.skip(i as int);
        assert(sk[0] == from@[i as int]@);
        assert(sk.drop_first() =~= fv.skip(i + 1));
        if !contains_id(visited, &from[i]) {
            let ghost seen = cids_view(visited@);
            assert(!seen.contains(from@[i as int]@)) by {
                if seen.contains(from@[i as int]@) {
                    let k = choose|k: int| 0 <= k < seen.len() && seen[k] == from@[i as int]@;
                    assert(visited@[k]@ == from@[i as int]@);
                }
            }
            let ghost into_before = cids_view(into@);
            visited.push(from[i].duplicate());
            into.push(from[i].duplicate());
            proof {
                let x = from@[i as int]@;
                assert(cids_view(into@) =~= into_before.push(x));
                assert(cids_view(visited@) =~= seen.push(x));
                assert(cids_view(into@) =~= cids_view(old(into)@) + added.push(x));
                assert(cids_view(visited@) =~= cids_view(old(visited)@) + added.push(x));
                assert(added + (seq![x] + fresh_ids(fv.skip(i + 1), seen.push(x))) =~= added.push(x) + fresh_ids(
                    fv.skip(i + 1),
                    seen.push(x),
                ));
                added = added.push(x);
            }
        } else {
            proof {
                let seen = cids_view(visited@);
                let k = choose|k: int| 0 <= k < visited@.len() && #[trigger] visited@[k]@ == from@[i as int]@;
                assert(seen[k] == from@[i as int]@);
            }
        }
        i += 1;
    }
    assert(fv.skip(i as int) =~= Seq::<ContainerIdView>::empty());
    assert(added + Seq::<ContainerIdView>::empty() =~= added);
}

impl Actor {
    /// A replica with peer id `id`: an empty document showing its latest
    /// version, one root map, list and text, and an empty history.
    pub fn new(id: PeerID) -> (r: Actor)
        ensures
            fresh_actor(r, id),
    {
        let mut loro = LoroDoc::new();
        let _ = loro.set_peer_id(id);
        let mut text_containers: Vec<ContainerID> = Vec::new();
        text_containers.push(ContainerID::new_root("text", ContainerType::Text));
        let mut map_containers: Vec<ContainerID> = Vec::new();
        map_containers.push(ContainerID::new_root("map", ContainerType::Mapping));
        let mut list_containers: Vec<ContainerID> = Vec::new();
        list_containers.push(ContainerID::new_root("list", ContainerType::List));
        let r = Actor {
            peer: id,
            loro,
            map_containers,
            list_containers,
            text_containers,
            history: Vec::new(),
        };
        proof {
            assert(cids_view(r.map_containers@) =~= seq![root_of(0)]);
            assert(cids_view(r.list_containers@) =~= seq![root_of(1)]);
            assert(cids_view(r.text_containers@) =~= seq![root_of(2)]);
        }
        r
    }

    /// Records the value of the document at its current version.
    pub fn record_history(&mut self)
        ensures
            final(self).history@.len() == old(self).history@.len() + 1,
            final(self).history@.drop_last() == old(self).history@,
            forall|p: PeerID| #[trigger] final(self).history@.last().0.spec_get(p) as int == log_vv(
                old(self).loro.log_view(),
                p,
            ),
            final(self).history@.last().1@ == doc_value(old(self).loro.state_log()),
            final(self).loro == old(self).loro,
            final(self).peer == old(self).peer,
            final(self).map_containers == old(self).map_containers,
            final(self).list_containers == old(self).list_containers,
            final(self).text_containers == old(self).text_containers,
    {
        let vv = self.loro.oplog_vv();
        let value = self.loro.get_deep_value();
        self.history.push((vv, value));
        assert(self.history@.drop_last() =~= old(self).history@);
    }

    /// Adds a new container to the list of its kind; other kinds are not
    /// tracked.
    fn add_new_container(&mut self, idx: ContainerID, type_: ContainerType)
        ensures
            final(self).peer == old(self).peer,
            final(self).loro == old(self).loro,
            final(self).history == old(self).history,
            final(self).text_containers@ == if type_ == ContainerType::Text {
                old(self).text_containers@.push(idx)
            } else {
                old(self).text_containers@
            },
            final(self).map_containers@ == if type_ == ContainerType::Mapping {
                old(self).map_containers@.push(idx)
            } else {
                old(self).map_containers@
            },
            final(self).list_containers@ == if type_ == ContainerType::List {
                old(self).list_containers@.push(idx)
            } else {
                old(self).list_containers@
            },
    {
        match type_ {
            ContainerType::Text => self.text_containers.push(idx),
            ContainerType::Mapping => self.map_containers.push(idx),
            ContainerType::List => self.list_containers.push(idx),
            _ => {},
        }
    }
}

/// `a mod b` where `b` is a container count taken as a byte; a count that
/// wraps to zero leaves `a` unchanged.
fn mod_count(a: u8, count: usize) -> (r: u8)
    ensures
        count <= 1 ==> r == 0,
        count > 1 && count % 256 == 0 ==> r == a,
        count > 1 && count % 256 != 0 ==> r == a % ((count % 256) as u8),
{
    let m = if count > 1 { count } else { 1 };
    let d = (m % 256) as u8;
    if d == 0 {
        a
    } else {
        a % d
    }
}

/// `a mod count` as `mod_count` computes it: 0 for a count of at most 1,
/// `a` for a count whose low byte is 0, `a` modulo the low byte otherwise.
pub open spec fn count_mod(a: u8, count: int) -> u8 {
    if count <= 1 {
        0
    } else if count % 256 == 0 {
        a
    } else {
        (a % ((count % 256) as u8)) as u8
    }
}

/// The sync between `from` and `to` brought into range for `n` replicas:
/// both modulo `n`, and `to` moved to the next replica (wrapping) when it
/// equals `from`.
pub open spec fn sync_in_range(from: u8, to: u8, n: u8) -> Action {
    let f = (from % n) as u8;
    let t = (to % n) as u8;
    if t == f {
        Action::Sync { from: f, to: if t + 1 < n { (t + 1) as u8 } else { 0 } }
    } else {
        Action::Sync { from: f, to: t }
    }
}

/// The number of visible elements of container `i` of `list` in `a`'s
/// document.
pub open spec fn elems_len(a: Actor, list: Seq<ContainerIdView>, i: int) -> int {
    visible(seq_state(a.loro.state_log(), list[i])).len() as int
}

/// The room a text delete from `pos` has in a text of `len` characters,
/// as a 16-bit count: `len` (modulo 2^16) less `pos`, wrapping.
pub open spec fn text_room(len: int, pos: u8) -> int {
    let l = len % 65536;
    if pos <= l {
        l - pos
    } else {
        l - pos + 65536
    }
}

/// The action `a` brought into range for the replicas `sites`, as
/// `preprocess` does it. A map edit takes its site modulo the number of
/// replicas and its container index modulo that site's map count. A list
/// edit does the same with lists, takes its key modulo the length of the
/// list picked (0 when no list is picked) and turns a delete on an empty or
/// missing list into a write of 1. A text edit does the same with texts,
/// takes its position modulo the text's length, and keeps a delete to at
/// most 31 characters and to the room left after the position; on a
/// missing text it becomes an insert at 0.
pub open spec fn normalized(sites: Seq<Actor>, a: Action) -> Action {
    let n = sites.len() as u8;
    match a {
        Action::Sync { from, to } => sync_in_range(from, to, n),
        Action::SyncAll => Action::SyncAll,
        Action::Mapping { site, container_idx, key, value } => {
            let st = (site % n) as u8;
            Action::Mapping {
                site: st,
                container_idx: count_mod(container_idx, handles(sites[st as int]).0.len() as int),
                key,
                value,
            }
        },
        Action::List { site, container_idx, key, value } => {
            let st = (site % n) as u8;
            let h = handles(sites[st as int]).1;
            let ci = count_mod(container_idx, h.len() as int);
            if ci < h.len() {
                let len = elems_len(sites[st as int], h, ci as int);
                Action::List {
                    site: st,
                    container_idx: ci,
                    key: count_mod(key, len),
                    value: if value is Null && len == 0 {
                        FuzzValue::I32(1)
                    } else {
                        value
                    },
                }
            } else {
                Action::List {
                    site: st,
                    container_idx: ci,
                    key: 0,
                    value: if value is Null {
                        FuzzValue::I32(1)
                    } else {
                        value
                    },
                }
            }
        },
        Action::Text { site, container_idx, pos, value, is_del } => {
            let st = (site % n) as u8;
            let h = handles(sites[st as int]).2;
            let ci = count_mod(container_idx, h.len() as int);
            if ci < h.len() {
                let len = elems_len(sites[st as int], h, ci as int);
                let p = count_mod(pos, len);
                let v = (value % 32) as int;
                let room = text_room(len, p);
                Action::Text {
                    site: st,
                    container_idx: ci,
                    pos: p,
                    value: if !is_del {
                        value
                    } else if room < v {
                        room as u16
                    } else {
                        v as u16
                    },
                    is_del,
                }
            } else {
                Action::Text { site: st, container_idx: ci, pos: 0, value, is_del: false }
            }
        },
    }
}

/// The action `a` brought into range for `n` new replicas (one root map,
/// list and text each, all empty): what the first action of a run
/// becomes.
pub open spec fn first_normalized(n: u8, a: Action) -> Action {
    match a {
        Action::Sync { from, to } => sync_in_range(from, to, n),
        Action::SyncAll => Action::SyncAll,
        Action::Mapping { site, key, value, .. } => Action::Mapping {
            site: (site % n) as u8,
            container_idx: 0,
            key,
            value,
        },
        Action::List { site, value, .. } => Action::List {
            site: (site % n) as u8,
            container_idx: 0,
            key: 0,
            value: if value is Null {
                FuzzValue::I32(1)
            } else {
                value
            },
        },
        Action::Text { site, value, is_del, .. } => Action::Text {
            site: (site % n) as u8,
            container_idx: 0,
            pos: 0,
            value: if is_del {
                0
            } else {
                value
            },
            is_del,
        },
    }
}

/// `b` is `a` brought into range for `n` replicas as far as that does not
/// depend on the replicas' contents: a sync as `sync_in_range` says, a sync
/// of all unchanged, an edit of the same kind on the site modulo `n`, and
/// a map edit with its key and value kept.
pub open spec fn normalized_shape(a: Action, b: Action, n: u8) -> bool {
    match a {
        Action::Sync { from, to } => b == sync_in_range(from, to, n),
        Action::SyncAll => b == Action::SyncAll,
        Action::Mapping { site, key, value, .. } => b matches Action::Mapping { site: s2, key: k2, value: v2, .. }
            && s2 == site % n && k2 == key && v2 == value,
        Action::List { site, .. } => b matches Action::List { site: s2, .. } && s2 == site % n,
        Action::Text { site, .. } => b matches Action::Text { site: s2, .. } && s2 == site % n,
    }
}

/// Brings an action into range for the current replicas: site and
/// container indices modulo the counts, positions inside the current
/// lengths, and a delete on an empty list turned into an insert.
pub fn preprocess(sites: &Vec<Actor>, action: &mut Action)
    requires
        2 <= sites@.len() <= 255,
    ensures
        *final(action) == normalized(sites@, *old(action)),
        match *final(action) {
            Action::Sync { from, to } => from < sites@.len() && to < sites@.len() && from != to,
            Action::Mapping { site, .. } => site < sites@.len(),
            Action::List { site, .. } => site < sites@.len(),
            Action::Text { site, .. } => site < sites@.len(),
            Action::SyncAll => true,
        },
{
    let max_users = sites.len() as u8;
    match *action {
        Action::Sync { from, to } => {
            let from = from % max_users;
            let mut to = to % max_users;
            if to == from {
                if to + 1 < max_users {
                    to = to + 1;
                } else {
                    to = 0;
                }
            }
            *action = Action::Sync { from, to };
        },
        Action::SyncAll => {},
        Action::Mapping { site, container_idx, key, value } => {
            let site = site % max_users;
            let container_idx = mod_count(container_idx, sites[site as usize].map_containers.len());
            *action = Action::Mapping { site, container_idx, key, value };
            assert(handles(sites@[site as int]).0.len() == sites@[site as int].map_containers@.len());
        },
        Action::List { site, container_idx, key, value } => {
            let site = site % max_users;
            let actor = &sites[site as usize];
            let container_idx = mod_count(container_idx, actor.list_containers.len());
            let mut key = key;
            let mut value = value;
            if (container_idx as usize) < actor.list_containers.len() {
                let len = actor.loro.seq_len(&actor.list_containers[container_idx as usize]);
                assert(len == elems_len(*actor, handles(*actor).1, container_idx as int));
                key = mod_count(key, len);
                if value == FuzzValue::Null && len == 0 {
                    value = FuzzValue::I32(1);
                }
            } else {
                if value == FuzzValue::Null {
                    value = FuzzValue::I32(1);
                }
                key = 0;
            }
            *action = Action::List { site, container_idx, key, value };
        },
        Action::Text { site, container_idx, pos, value, is_del } => {
            let site = site % max_users;
            let actor = &sites[site as usize];
            let container_idx = mod_count(container_idx, actor.text_containers.len());
            let mut pos = pos;
            let mut value = value;
            let mut is_del = is_del;
            if (container_idx as usize) < actor.text_containers.len() {
                let len = actor.loro.seq_len(&actor.text_containers[container_idx as usize]);
                assert(len == elems_len(*actor, handles(*actor).2, container_idx as int));
                pos = mod_count(pos, len);
                if is_del {
                    let v0 = value;
                    value = value & 0x1f;
                    assert(v0 & 0x1f == v0 % 32) by (bit_vector);
                    let room = ((len % 65536) as u16).wrapping_sub(pos as u16);
                    assert(room == text_room(len as int, pos));
                    if room < value {
                        value = room;
                    }
                }
            } else {
                is_del = false;
                pos = 0;
            }
            *action = Action::Text { site, container_idx, pos, value, is_del };
        },
    }
}

/// The text a harness insert writes: the decimal value in brackets.
pub fn bracketed(value: u64) -> (r: Vec<char>)
    ensures
        r@ == seq!['['] + crate::common::decimal_chars(value as nat) + seq![']'],
{
    let mut r: Vec<char> = Vec::new();
    r.push('[');
    push_decimal(&mut r, value);
    r.push(']');
    r
}

/// `y` is `x` but for its document.
pub open spec fn same_but_doc(y: Actor, x: Actor) -> bool {
    &&& y.peer == x.peer
    &&& y.map_containers == x.map_containers
    &&& y.list_containers == x.list_containers
    &&& y.text_containers == x.text_containers
    &&& y.history == x.history
}

/// Exchanges updates between sites `a` and `b` in both directions: `a`
/// merges what `b` sends it, then `b` merges what `a` then sends it. The
/// ops sent are all of them for a snapshot and otherwise those past the
/// receiver's version; the imports always succeed.
fn exchange(sites: &mut Vec<Actor>, a: usize, b: usize, snapshot: bool) -> (ok: bool)
    requires
        a < old(sites)@.len(),
        b < old(sites)@.len(),
    ensures
        ok,
        final(sites)@.len() == old(sites)@.len(),
        forall|q: int| 0 <= q < old(sites)@.len() && q != a && q != b ==> #[trigger] final(sites)@[q] == old(sites)@[q],
        same_but_doc(final(sites)@[a as int], old(sites)@[a as int]),
        same_but_doc(final(sites)@[b as int], old(sites)@[b as int]),
        a != b ==> merged(
            old(sites)@[a as int].loro,
            final(sites)@[a as int].loro,
            sent(old(sites)@[a as int].loro, old(sites)@[b as int].loro, snapshot),
        ),
        a != b ==> merged(
            old(sites)@[b as int].loro,
            final(sites)@[b as int].loro,
            sent(old(sites)@[b as int].loro, final(sites)@[a as int].loro, snapshot),
        ),
        a == b ==> doc_grows(old(sites)@[a as int].loro, final(sites)@[a as int].loro),
{
    let ghost da = sites@[a as int].loro;
    let ghost db = sites@[b as int].loro;
    let updates_for_a = if snapshot {
        sites[b].loro.export_snapshot()
    } else {
        let vv = sites[a].loro.oplog_vv();
        let u = sites[b].loro.export_from(&vv);
        proof {
            assert forall|p: PeerID| crate::version::vv_lookup(vv.entries@, p) as int == log_vv(da.log_view(), p) by {
                assert(vv.spec_get(p) as int == log_vv(da.log_view(), p));
            }
            crate::version::lemma_ops_beyond_above(db.log_view(), vv.entries@, da.log_view());
        }
        u
    };
    assert(crate::oplog::ops_view(updates_for_a@) == sent(da, db, snapshot));
    let ok_a = sites[a].loro.import(&updates_for_a).is_ok();
    let ghost ma = sites@[a as int].loro;
    let ghost mb = sites@[b as int].loro;
    let updates_for_b = if snapshot {
        sites[a].loro.export_snapshot()
    } else {
        let vv = sites[b].loro.oplog_vv();
        let u = sites[a].loro.export_from(&vv);
        proof {
            assert forall|p: PeerID| crate::version::vv_lookup(vv.entries@, p) as int == log_vv(mb.log_view(), p) by {
                assert(vv.spec_get(p) as int == log_vv(mb.log_view(), p));
            }
            crate::version::lemma_ops_beyond_above(ma.log_view(), vv.entries@, mb.log_view());
        }
        u
    };
    assert(crate::oplog::ops_view(updates_for_b@) == sent(mb, ma, snapshot));
    let ok_b = sites[b].loro.import(&updates_for_b).is_ok();
    ok_a && ok_b
}

/// The map, list and text containers of an actor, as three lists.
fn handles_of(actor: &Actor) -> (r: (Vec<ContainerID>, Vec<ContainerID>, Vec<ContainerID>))
    ensures
        cids_view(r.0@) == cids_view(actor.map_containers@),
        cids_view(r.1@) == cids_view(actor.list_containers@),
        cids_view(r.2@) == cids_view(actor.text_containers@),
{
    let m = copy_ids(&actor.map_containers);
    let l = copy_ids(&actor.list_containers);
    let t = copy_ids(&actor.text_containers);
    assert(cids_view(m@) =~= cids_view(actor.map_containers@));
    assert(cids_view(l@) =~= cids_view(actor.list_containers@));
    assert(cids_view(t@) =~= cids_view(actor.text_containers@));
    (m, l, t)
}

/// `y` is `x` later on, its containers aside: the same peer, every op of
/// `x`'s document kept, and `x`'s history as the start of `y`'s.
pub open spec fn site_keeps(x: Actor, y: Actor) -> bool {
    &&& y.peer == x.peer
    &&& doc_grows(x.loro, y.loro)
    &&& x.history@.len() <= y.history@.len()
    &&& y.history@.subrange(0, x.history@.len() as int) == x.history@
}

proof fn lemma_site_keeps_refl(x: Actor)
    ensures
        site_keeps(x, x),
{
    assert(x.history@.subrange(0, x.history@.len() as int) =~= x.history@);
}

proof fn lemma_site_keeps_trans(x: Actor, y: Actor, z: Actor)
    requires
        site_keeps(x, y),
        site_keeps(y, z),
    ensures
        site_keeps(x, z),
{
    assert(z.history@.subrange(0, x.history@.len() as int) =~= y.history@.subrange(0, x.history@.len() as int));
}

proof fn lemma_cids_push(v: Seq<ContainerID>, x: ContainerID)
    ensures
        cids_view(v.push(x)) == cids_view(v).push(x@),
{
    assert(cids_view(v.push(x)) =~= cids_view(v).push(x@));
}

/// A new replica of peer `id`: its document is empty, has peer `id` and
/// shows its latest version; it knows one root map, list and text; its
/// history is empty.
pub open spec fn fresh_actor(a: Actor, id: PeerID) -> bool {
    &&& a.peer == id
    &&& a.loro.peer_view() == id
    &&& a.loro.log_view() == Seq::<OpView>::empty()
    &&& a.loro.detached_view() is None
    &&& handles(a) == (seq![root_of(0)], seq![root_of(1)], seq![root_of(2)])
    &&& a.history@.len() == 0
}

/// The map, list and text containers of an actor.
pub open spec fn handles(a: Actor) -> (Seq<ContainerIdView>, Seq<ContainerIdView>, Seq<ContainerIdView>) {
    (cids_view(a.map_containers@), cids_view(a.list_containers@), cids_view(a.text_containers@))
}

/// The containers of `a` after it takes in those of `b`: for each kind in
/// turn (maps, lists, texts), the ones of `b` that `a` did not know of,
/// nor an earlier one taken in, are added at the end.
pub open spec fn merged_handles(a: Actor, b: Actor) -> (
    Seq<ContainerIdView>,
    Seq<ContainerIdView>,
    Seq<ContainerIdView>,
) {
    let ha = handles(a);
    let hb = handles(b);
    let v0 = ha.0 + ha.1 + ha.2;
    let fm = fresh_ids(hb.0, v0);
    let fl = fresh_ids(hb.1, v0 + fm);
    let ft = fresh_ids(hb.2, v0 + fm + fl);
    (ha.0 + fm, ha.1 + fl, ha.2 + ft)
}

/// The containers of one kind once an edit has picked its container by
/// `idx`: a root container `root` is added when `idx` is past the end.
pub open spec fn with_root(list: Seq<ContainerIdView>, idx: u8, root: ContainerIdView) -> Seq<ContainerIdView> {
    if idx >= list.len() {
        list.push(root)
    } else {
        list
    }
}

/// The container an edit picks by `idx` among `list` (with `root` added
/// when `idx` is past the end): the one at `idx`, or else the first.
pub open spec fn picked(list: Seq<ContainerIdView>, idx: u8, root: ContainerIdView) -> ContainerIdView {
    let l = with_root(list, idx, root);
    if idx < l.len() {
        l[idx as int]
    } else {
        l[0]
    }
}

/// The containers `h` with `id`, of kind `t`, added to the list of its
/// kind; kinds other than maps, lists and texts are not kept.
pub open spec fn add_handle(
    h: (Seq<ContainerIdView>, Seq<ContainerIdView>, Seq<ContainerIdView>),
    id: ContainerIdView,
    t: ContainerType,
) -> (Seq<ContainerIdView>, Seq<ContainerIdView>, Seq<ContainerIdView>) {
    match t {
        ContainerType::Mapping => (h.0.push(id), h.1, h.2),
        ContainerType::List => (h.0, h.1.push(id), h.2),
        ContainerType::Text => (h.0, h.1, h.2.push(id)),
        _ => h,
    }
}

/// The id of the container created by the last op of `doc`, of kind `t`.
pub open spec fn created_id(doc: LoroDoc, t: ContainerType) -> ContainerIdView {
    ContainerIdView::Normal {
        peer: doc.log_view().last().peer,
        counter: doc.log_view().last().counter,
        container_type: t,
    }
}

/// The containers of `y` after an edit that picked its container among the
/// kind at `kind` (0 for maps, 1 for lists, 2 for texts) of `x` by `idx`,
/// with root `root`, and that went through (`ok`) writing `value`: a new
/// child container written is added to the list of its kind.
pub open spec fn edited_handles(
    x: Actor,
    y: Actor,
    kind: int,
    idx: u8,
    root: ContainerIdView,
    value: FuzzValue,
    ok: bool,
) -> bool {
    let h = handles(x);
    let base = if kind == 0 {
        (with_root(h.0, idx, root), h.1, h.2)
    } else if kind == 1 {
        (h.0, with_root(h.1, idx, root), h.2)
    } else {
        (h.0, h.1, with_root(h.2, idx, root))
    };
    handles(y) == match value {
        FuzzValue::Container(t) => if ok {
            add_handle(base, created_id(y.loro, t), t)
        } else {
            base
        },
        _ => base,
    }
}

/// The value a map or list edit writes.
pub open spec fn written(value: FuzzValue) -> OpValue {
    match value {
        FuzzValue::Container(t) => OpValue::Container(t),
        FuzzValue::I32(i) => OpValue::I64(i as i64),
        FuzzValue::Null => OpValue::I64(0),
    }
}

/// The root container a map, list or text edit adds when it needs one.
pub open spec fn root_of(kind: int) -> ContainerIdView {
    if kind == 0 {
        ContainerIdView::Root { name: "map"@, container_type: ContainerType::Mapping }
    } else if kind == 1 {
        ContainerIdView::Root { name: "list"@, container_type: ContainerType::List }
    } else {
        ContainerIdView::Root { name: "text"@, container_type: ContainerType::Text }
    }
}

/// What an edit did to an actor: `y` is `x` with the edit's container
/// picked and its op appended when `ok` (the content given), `refused`
/// edits failing, the new child container kept, and site 1's value
/// recorded.
pub open spec fn site_edited(
    x: Actor,
    y: Actor,
    kind: int,
    idx: u8,
    value: FuzzValue,
    content: OpContentView,
    refused: bool,
    ok: bool,
) -> bool {
    &&& edit_outcome(x.loro, y.loro, ok, picked_of(x, kind, idx), content, refused)
    &&& y.loro.detached_view() == x.loro.detached_view()
    &&& edited_handles(x, y, kind, idx, root_of(kind), value, ok)
    &&& y.peer == x.peer
    &&& y.history@.len() == x.history@.len() + (if x.peer == 1 {
        1int
    } else {
        0int
    })
}

/// The container a map, list or text edit of `x` picks.
pub open spec fn picked_of(x: Actor, kind: int, idx: u8) -> ContainerIdView {
    picked(if kind == 0 {
        handles(x).0
    } else if kind == 1 {
        handles(x).1
    } else {
        handles(x).2
    }, idx, root_of(kind))
}

/// The visible elements of the container a list or text edit of `x` picks.
pub open spec fn picked_elems(x: Actor, kind: int, idx: u8) -> Seq<crate::state::Elem> {
    visible(seq_state(x.loro.state_log(), picked_of(x, kind, idx)))
}

/// The content of the op a map edit appends: the key's decimal text set to
/// the value, or removed for `Null`.
pub open spec fn map_content(key: u8, value: FuzzValue) -> OpContentView {
    OpContentView::MapSet {
        key: decimal_chars(key as nat),
        value: if value is Null {
            None
        } else {
            Some(written(value))
        },
    }
}

/// The content of the op a list edit of `x` appends: a delete of one
/// element at `key` for `Null`, an insert of the value at `key` otherwise.
pub open spec fn list_content(x: Actor, idx: u8, key: u8, value: FuzzValue) -> OpContentView {
    let vis = picked_elems(x, 1, idx);
    if value is Null {
        OpContentView::SeqDelete { targets: seq_targets(vis, key as int, 1) }
    } else {
        OpContentView::SeqInsert { origin: seq_origin(vis, key as int), values: seq![written(value)] }
    }
}

/// Whether a list edit of `x` is refused: on a detached document, on a
/// container that is no list, or past the end of the list.
pub open spec fn list_refused(x: Actor, idx: u8, key: u8, value: FuzzValue) -> bool {
    let len = picked_elems(x, 1, idx).len();
    ||| x.loro.detached_view() is Some
    ||| cid_type(picked_of(x, 1, idx)) != ContainerType::List
    ||| (if value is Null {
        key + 1 > len
    } else {
        key > len
    })
}

/// The content of the op a text edit of `x` appends: a delete of `value`
/// characters from `pos`, or an insert of the bracketed decimal text of
/// `value` at `pos`.
pub open spec fn text_content(x: Actor, idx: u8, pos: u8, value: u16, is_del: bool) -> OpContentView {
    let vis = picked_elems(x, 2, idx);
    if is_del {
        OpContentView::SeqDelete { targets: seq_targets(vis, pos as int, value as int) }
    } else {
        OpContentView::SeqInsert {
            origin: seq_origin(vis, pos as int),
            values: char_values(seq!['['] + decimal_chars((value as u64) as nat) + seq![']']),
        }
    }
}

/// Whether a text edit of `x` is refused: on a detached document, on a
/// container that is no text, or past the end of the text.
pub open spec fn text_refused(x: Actor, idx: u8, pos: u8, value: u16, is_del: bool) -> bool {
    let len = picked_elems(x, 2, idx).len();
    ||| x.loro.detached_view() is Some
    ||| cid_type(picked_of(x, 2, idx)) != ContainerType::Text
    ||| (if is_del {
        pos + value > len
    } else {
        pos > len
    })
}

/// Applies one (preprocessed) action. Every replica keeps its peer, its
/// ops and its history. A sync touches only its two replicas: `from`
/// merges the ops past its version that `to` sends it, then `to` merges
/// those that `from` then sends it, and both end with the containers of
/// `from` followed by those of `to` it lacked; like a sync of all, after
/// which every replica has the containers of site 0, it always succeeds.
/// An edit touches only its replica: it picks a container of its kind
/// (adding a root one when the index is past the end), whose document gets
/// the op of the edit when it goes through and is left as it was
/// otherwise; a child container written is kept. Site 1 records its value
/// after each action that touched it.
pub fn apply_action(sites: &mut Vec<Actor>, action: &Action) -> (ok: bool)
    requires
        match *action {
            Action::Sync { from, to } => from < old(sites)@.len() && to < old(sites)@.len(),
            Action::Mapping { site, .. } => site < old(sites)@.len(),
            Action::List { site, .. } => site < old(sites)@.len(),
            Action::Text { site, .. } => site < old(sites)@.len(),
            Action::SyncAll => old(sites)@.len() >= 2,
        },
    ensures
        final(sites)@.len() == old(sites)@.len(),
        forall|q: int| 0 <= q < old(sites)@.len() ==> site_keeps(old(sites)@[q], #[trigger] final(sites)@[q]),
        match *action {
            Action::Sync { from, to } => {
                &&& ok
                &&& forall|q: int|
                    0 <= q < old(sites)@.len() && q != from && q != to ==> #[trigger] final(sites)@[q] == old(sites)@[q]
                &&& from != to ==> merged(
                    old(sites)@[from as int].loro,
                    final(sites)@[from as int].loro,
                    sent(old(sites)@[from as int].loro, old(sites)@[to as int].loro, false),
                )
                &&& from != to ==> merged(
                    old(sites)@[to as int].loro,
                    final(sites)@[to as int].loro,
                    sent(old(sites)@[to as int].loro, final(sites)@[from as int].loro, false),
                )
                &&& handles(final(sites)@[from as int]) == merged_handles(old(sites)@[from as int], old(sites)@[to as int])
                &&& handles(final(sites)@[to as int]) == merged_handles(old(sites)@[from as int], old(sites)@[to as int])
                &&& final(sites)@[from as int].history@.len() == old(sites)@[from as int].history@.len() + (
                if old(sites)@[from as int].peer == 1 {
                    1int
                } else {
                    0int
                })
                &&& from != to ==> final(sites)@[to as int].history == old(sites)@[to as int].history
            },
            Action::SyncAll => {
                &&& ok
                &&& final(sites)@[1].history@.len() == old(sites)@[1].history@.len() + 1
                &&& forall|q: int| 0 <= q < old(sites)@.len() && q != 1 ==> #[trigger] final(sites)@[q].history
                    == old(sites)@[q].history
                &&& forall|q: int| 0 <= q < old(sites)@.len() ==> #[trigger] handles(final(sites)@[q]) == handles(
                    final(sites)@[0],
                )
            },
            Action::Mapping { site, container_idx, key, value } => {
                let x = old(sites)@[site as int];
                &&& site_edited(
                    x,
                    final(sites)@[site as int],
                    0,
                    container_idx,
                    value,
                    map_content(key, value),
                    x.loro.detached_view() is Some || cid_type(picked_of(x, 0, container_idx))
                        != ContainerType::Mapping,
                    ok,
                )
                &&& forall|q: int| 0 <= q < old(sites)@.len() && q != site ==> #[trigger] final(sites)@[q] == old(sites)@[q]
            },
            Action::List { site, container_idx, key, value } => {
                let x = old(sites)@[site as int];
                &&& site_edited(
                    x,
                    final(sites)@[site as int],
                    1,
                    container_idx,
                    value,
                    list_content(x, container_idx, key, value),
                    list_refused(x, container_idx, key, value),
                    ok,
                )
                &&& forall|q: int| 0 <= q < old(sites)@.len() && q != site ==> #[trigger] final(sites)@[q] == old(sites)@[q]
            },
            Action::Text { site, container_idx, pos, value, is_del } => {
                let x = old(sites)@[site as int];
                &&& site_edited(
                    x,
                    final(sites)@[site as int],
                    2,
                    container_idx,
                    FuzzValue::Null,
                    text_content(x, container_idx, pos, value, is_del),
                    text_refused(x, container_idx, pos, value, is_del),
                    ok,
                )
                &&& forall|q: int| 0 <= q < old(sites)@.len() && q != site ==> #[trigger] final(sites)@[q] == old(sites)@[q]
            },
        },
{
    match *action {
        Action::Sync { from, to } => {
            let a = from as usize;
            let b = to as usize;
            let (mut vm, mut vl, mut vt) = handles_of(&sites[a]);
            let ghost g0 = vm@;
            let ghost g1 = vl@;
            let ghost g2 = vt@;
            let mut visited: Vec<ContainerID> = Vec::new();
            visited.append(&mut vm);
            visited.append(&mut vl);
            visited.append(&mut vt);
            proof {
                assert(visited@ =~= g0 + g1 + g2);
                assert(cids_view(visited@) =~= cids_view(g0) + cids_view(g1) + cids_view(g2));
            }
            let ok = exchange(sites, a, b, false);
            let ghost s1 = sites@;
            proof {
                assert forall|q: int| 0 <= q < s1.len() implies site_keeps(old(sites)@[q], #[trigger] s1[q]) by {
                    lemma_site_keeps_refl(s1[q]);
                    if q == a || q == b {
                        assert(doc_grows(old(sites)@[q].loro, s1[q].loro));
                    }
                }
            }
            if sites[a].peer == 1 {
                sites[a].record_history();
            }
            let (bm, bl, bt) = handles_of(&sites[b]);
            proof {
                assert(handles(sites@[a as int]) == handles(old(sites)@[a as int]));
                assert(handles(sites@[b as int]) == handles(old(sites)@[b as int]));
            }
            merge_ids(&mut sites[a].map_containers, &bm, &mut visited);
            merge_ids(&mut sites[a].list_containers, &bl, &mut visited);
            merge_ids(&mut sites[a].text_containers, &bt, &mut visited);
            proof {
                assert(handles(sites@[a as int]) == merged_handles(old(sites)@[a as int], old(sites)@[b as int]));
            }
            let (am, al, at) = handles_of(&sites[a]);
            sites[b].map_containers = am;
            sites[b].list_containers = al;
            sites[b].text_containers = at;
            proof {
                assert forall|q: int| 0 <= q < s1.len() implies site_keeps(old(sites)@[q], #[trigger] sites@[q]) by {
                    assert(sites@[q].history@.subrange(0, s1[q].history@.len() as int) =~= s1[q].history@);
                    assert(site_keeps(s1[q], sites@[q]));
                    lemma_site_keeps_trans(old(sites)@[q], s1[q], sites@[q]);
                }
                assert forall|q: int| 0 <= q < old(sites)@.len() && q != from && q != to implies #[trigger] sites@[q] == old(sites)@[q] by {
                    assert(s1[q] == old(sites)@[q]);
                }
            }
            assert(ok);
            ok
        },
        Action::SyncAll => {
            let mut ok = true;
            let (mut vm, mut vl, mut vt) = handles_of(&sites[0]);
            let mut visited: Vec<ContainerID> = Vec::new();
            visited.append(&mut vm);
            visited.append(&mut vl);
            visited.append(&mut vt);
            let n = sites.len();
            proof {
                assert forall|q: int| 0 <= q < n implies site_keeps(old(sites)@[q], #[trigger] sites@[q]) by {
                    lemma_site_keeps_refl(sites@[q]);
                }
            }
            let mut i: usize = 1;
            while i < n
                invariant
                    1 <= i <= n,
                    sites@.len() == n,
                    n == old(sites)@.len(),
                    n >= 2,
                    ok,
                    forall|q: int| 0 <= q < n ==> site_keeps(old(sites)@[q], #[trigger] sites@[q]),
                    forall|q: int| 0 <= q < n ==> #[trigger] sites@[q].history == old(sites)@[q].history,
                decreases n - i,
            {
                let ghost s0 = sites@;
                let vv = sites[0].loro.oplog_vv();
                let updates = sites[i].loro.export_from(&vv);
                if sites[0].loro.import(&updates).is_err() {
                    ok = false;
                }
                proof {
                    assert(doc_grows(s0[0].loro, sites@[0].loro));
                }
                let (bm, bl, bt) = handles_of(&sites[i]);
                merge_ids(&mut sites[0].map_containers, &bm, &mut visited);
                merge_ids(&mut sites[0].list_containers, &bl, &mut visited);
                merge_ids(&mut sites[0].text_containers, &bt, &mut visited);
                proof {
                    assert forall|q: int| 0 <= q < n implies site_keeps(old(sites)@[q], #[trigger] sites@[q]) by {
                        lemma_site_keeps_refl(s0[q]);
                        if q == 0 {
                            assert(sites@[q].history@.subrange(0, s0[q].history@.len() as int) =~= s0[q].history@);
                            assert(site_keeps(s0[q], sites@[q]));
                            lemma_site_keeps_trans(old(sites)@[q], s0[q], sites@[q]);
                        } else {
                            assert(sites@[q] == s0[q]);
                        }
                    }
                }
                i += 1;
            }
            let ghost h0 = handles(sites@[0]);
            let mut i: usize = 1;
            while i < n
                invariant
                    1 <= i <= n,
                    sites@.len() == n,
                    n == old(sites)@.len(),
                    n >= 2,
                    ok,
                    forall|q: int| 0 <= q < n ==> site_keeps(old(sites)@[q], #[trigger] sites@[q]),
                    forall|q: int| 0 <= q < n ==> #[trigger] sites@[q].history == old(sites)@[q].history,
                    handles(sites@[0]) == h0,
                    forall|q: int| 1 <= q < i ==> #[trigger] handles(sites@[q]) == h0,
                decreases n - i,
            {
                let ghost s0 = sites@;
                let vv = sites[i].loro.oplog_vv();
                let updates = sites[0].loro.export_from(&vv);
                if sites[i].loro.import(&updates).is_err() {
                    ok = false;
                }
                proof {
                    assert(doc_grows(s0[i as int].loro, sites@[i as int].loro));
                }
                let (am, al, at) = handles_of(&sites[0]);
                sites[i].map_containers = am;
                sites[i].list_containers = al;
                sites[i].text_containers = at;
                proof {
                    assert(handles(sites@[i as int]) == h0);
                    assert forall|q: int| 1 <= q < i + 1 implies #[trigger] handles(sites@[q]) == h0 by {
                        if q != i {
                            assert(sites@[q] == s0[q]);
                        }
                    }
                    assert forall|q: int| 0 <= q < n implies site_keeps(old(sites)@[q], #[trigger] sites@[q]) by {
                        lemma_site_keeps_refl(s0[q]);
                        if q == i {
                            assert(sites@[q].history@.subrange(0, s0[q].history@.len() as int) =~= s0[q].history@);
                            assert(site_keeps(s0[q], sites@[q]));
                            lemma_site_keeps_trans(old(sites)@[q], s0[q], sites@[q]);
                        } else {
                            assert(sites@[q] == s0[q]);
                        }
                    }
                }
                i += 1;
            }
            let ghost s2 = sites@;
            sites[1].record_history();
            proof {
                assert(sites@[0] == s2[0]);
                assert(handles(sites@[1]) == handles(s2[1]));
                assert forall|q: int| 0 <= q < n implies #[trigger] handles(sites@[q]) == handles(sites@[0]) by {
                    if q != 1 {
                        assert(sites@[q] == s2[q]);
                    }
                    if q >= 1 {
                        assert(handles(s2[q]) == h0);
                    }
                }
                assert forall|q: int| 0 <= q < n implies site_keeps(old(sites)@[q], #[trigger] sites@[q]) by {
                    assert(sites@[q].history@.subrange(0, s2[q].history@.len() as int) =~= s2[q].history@);
                    lemma_site_keeps_refl(s2[q]);
                    assert(site_keeps(s2[q], sites@[q]));
                    lemma_site_keeps_trans(old(sites)@[q], s2[q], sites@[q]);
                }
            }
            ok
        },
        Action::Mapping { site, container_idx, key, value } => {
            let s = site as usize;
            if (container_idx as usize) >= sites[s].map_containers.len() {
                sites[s].map_containers.push(ContainerID::new_root("map", ContainerType::Mapping));
            }
            let idx = if (container_idx as usize) < sites[s].map_containers.len() {
                container_idx as usize
            } else {
                0
            };
            let container = sites[s].map_containers[idx].duplicate();
            let ghost x = old(sites)@[s as int];
            proof {
                assert(cids_view(sites@[s as int].map_containers@) =~= with_root(handles(x).0, container_idx, root_of(0)));
                assert(container@ == picked_of(x, 0, container_idx));
            }
            let ghost s0 = sites@;
            let mut key_chars: Vec<char> = Vec::new();
            push_decimal(&mut key_chars, key as u64);
            let key_str = string_from_chars(&key_chars);
            assert(key_str@ =~= decimal_chars(key as nat));
            let ok = match value {
                FuzzValue::Null => sites[s].loro.map_delete(&container, key_str.as_str()).is_ok(),
                FuzzValue::I32(i) => sites[s].loro.map_insert(&container, key_str.as_str(), i as i64).is_ok(),
                FuzzValue::Container(c) => {
                    match sites[s].loro.map_insert_container(&container, key_str.as_str(), c) {
                        Ok(id) => {
                            let ghost before = sites@[s as int];
                            sites[s].add_new_container(id, c);
                            proof {
                                lemma_cids_push(before.map_containers@, id);
                                lemma_cids_push(before.list_containers@, id);
                                lemma_cids_push(before.text_containers@, id);
                                assert(handles(sites@[s as int]) == add_handle(handles(before), id@, c));
                            }
                            true
                        },
                        Err(_) => false,
                    }
                },
            };
            if sites[s].peer == 1 {
                sites[s].record_history();
            }
            proof {
                let d0 = old(sites)@[s as int].loro;
                let d1 = sites@[s as int].loro;
                assert(edited(d0, d1, ok));
                lemma_edited_grows(d0, d1, ok);
                assert forall|q: int| 0 <= q < old(sites)@.len() implies site_keeps(old(sites)@[q], #[trigger] sites@[q]) by {
                    if q == s as int {
                        assert(sites@[q].history@.subrange(0, old(sites)@[q].history@.len() as int) =~= old(sites)@[q].history@);
                        assert(sites@[q].peer == old(sites)@[q].peer);
                        assert(old(sites)@[q].history@.len() <= sites@[q].history@.len());
                        assert(doc_grows(old(sites)@[q].loro, sites@[q].loro));
                        assert(site_keeps(old(sites)@[q], sites@[q]));
                    } else {
                        assert(sites@[q] == old(sites)@[q]);
                        lemma_site_keeps_refl(sites@[q]);
                    }
                }
            }
            ok
        },
        Action::List { site, container_idx, key, value } => {
            let s = site as usize;
            if (container_idx as usize) >= sites[s].list_containers.len() {
                sites[s].list_containers.push(ContainerID::new_root("list", ContainerType::List));
            }
            let idx = if (container_idx as usize) < sites[s].list_containers.len() {
                container_idx as usize
            } else {
                0
            };
            let container = sites[s].list_containers[idx].duplicate();
            let ghost x = old(sites)@[s as int];
            proof {
                assert(cids_view(sites@[s as int].list_containers@) =~= with_root(handles(x).1, container_idx, root_of(1)));
                assert(container@ == picked_of(x, 1, container_idx));
            }
            let ghost s0 = sites@;
            let ok = match value {
                FuzzValue::Null => sites[s].loro.list_delete(&container, key as usize, 1).is_ok(),
                FuzzValue::I32(i) => sites[s].loro.list_insert(&container, key as usize, i as i64).is_ok(),
                FuzzValue::Container(c) => {
                    match sites[s].loro.list_insert_container(&container, key as usize, c) {
                        Ok(id) => {
                            let ghost before = sites@[s as int];
                            sites[s].add_new_container(id, c);
                            proof {
                                lemma_cids_push(before.map_containers@, id);
                                lemma_cids_push(before.list_containers@, id);
                                lemma_cids_push(before.text_containers@, id);
                                assert(handles(sites@[s as int]) == add_handle(handles(before), id@, c));
                            }
                            true
                        },
                        Err(_) => false,
                    }
                },
            };
            if sites[s].peer == 1 {
                sites[s].record_history();
            }
            proof {
                let d0 = old(sites)@[s as int].loro;
                let d1 = sites@[s as int].loro;
                assert(edited(d0, d1, ok));
                lemma_edited_grows(d0, d1, ok);
                assert forall|q: int| 0 <= q < old(sites)@.len() implies site_keeps(old(sites)@[q], #[trigger] sites@[q]) by {
                    if q == s as int {
                        assert(sites@[q].history@.subrange(0, old(sites)@[q].history@.len() as int) =~= old(sites)@[q].history@);
                        assert(sites@[q].peer == old(sites)@[q].peer);
                        assert(old(sites)@[q].history@.len() <= sites@[q].history@.len());
                        assert(doc_grows(old(sites)@[q].loro, sites@[q].loro));
                        assert(site_keeps(old(sites)@[q], sites@[q]));
                    } else {
                        assert(sites@[q] == old(sites)@[q]);
                        lemma_site_keeps_refl(sites@[q]);
                    }
                }
            }
            ok
        },
        Action::Text { site, container_idx, pos, value, is_del } => {
            let s = site as usize;
            if (container_idx as usize) >= sites[s].text_containers.len() {
                sites[s].text_containers.push(ContainerID::new_root("text", ContainerType::Text));
            }
            let idx = if (container_idx as usize) < sites[s].text_containers.len() {
                container_idx as usize
            } else {
                0
            };
            let container = sites[s].text_containers[idx].duplicate();
            let ghost x = old(sites)@[s as int];
            proof {
                assert(cids_view(sites@[s as int].text_containers@) =~= with_root(handles(x).2, container_idx, root_of(2)));
                assert(container@ == picked_of(x, 2, container_idx));
            }
            let ghost s0 = sites@;
            let ok = if is_del {
                sites[s].loro.text_delete(&container, pos as usize, value as usize).is_ok()
            } else {
                let chars = bracketed(value as u64);
                sites[s].loro.text_insert(&container, pos as usize, &chars).is_ok()
            };
            if sites[s].peer == 1 {
                sites[s].record_history();
            }
            proof {
                let d0 = old(sites)@[s as int].loro;
                let d1 = sites@[s as int].loro;
                assert(edited(d0, d1, ok));
                lemma_edited_grows(d0, d1, ok);
                assert forall|q: int| 0 <= q < old(sites)@.len() implies site_keeps(old(sites)@[q], #[trigger] sites@[q]) by {
                    if q == s as int {
                        assert(sites@[q].history@.subrange(0, old(sites)@[q].history@.len() as int) =~= old(sites)@[q].history@);
                        assert(sites@[q].peer == old(sites)@[q].peer);
                        assert(old(sites)@[q].history@.len() <= sites@[q].history@.len());
                        assert(doc_grows(old(sites)@[q].loro, sites@[q].loro));
                        assert(site_keeps(old(sites)@[q], sites@[q]));
                    } else {
                        assert(sites@[q] == old(sites)@[q]);
                        lemma_site_keeps_refl(sites@[q]);
                    }
                }
            }
            ok
        },
    }
}

/// Whether two replicas show the same deep value.
fn check_eq(a: &Actor, b: &Actor) -> (r: bool)
    ensures
        r == (crate::state::doc_value(a.loro.state_log()) == crate::state::doc_value(
            b.loro.state_log(),
        )),
{
    let va = a.loro.get_deep_value();
    let vb = b.loro.get_deep_value();
    va.equals(&vb)
}

/// `y` is `x` later on: the same peer and containers, every op of `x`'s
/// document kept with its peer and the version it shows, and `x`'s history
/// as the start of `y`'s.
pub open spec fn site_grows(x: Actor, y: Actor) -> bool {
    &&& y.peer == x.peer
    &&& y.map_containers == x.map_containers
    &&& y.list_containers == x.list_containers
    &&& y.text_containers == x.text_containers
    &&& doc_grows(x.loro, y.loro)
    &&& x.history@.len() <= y.history@.len()
    &&& y.history@.subrange(0, x.history@.len() as int) == x.history@
}

proof fn lemma_site_grows_refl(x: Actor)
    ensures
        site_grows(x, x),
{
    assert(x.history@.subrange(0, x.history@.len() as int) =~= x.history@);
}

proof fn lemma_site_grows_trans(x: Actor, y: Actor, z: Actor)
    requires
        site_grows(x, y),
        site_grows(y, z),
    ensures
        site_grows(x, z),
{
    assert(z.history@.subrange(0, x.history@.len() as int) =~= y.history@.subrange(0, x.history@.len() as int));
}

/// How many values site 1 has recorded once every pair of replicas before
/// `(i, j)` (pairs taken as `i < j`, in order) was synchronised, with `n`
/// replicas: one after each synchronisation it took part in.
spec fn synced_records(n: int, i: int, j: int) -> int {
    if i == 0 {
        if j > 1 {
            1
        } else {
            0
        }
    } else if i == 1 {
        j - 1
    } else {
        n - 1
    }
}

/// Every replica holds the log `log` and shows its latest version.
pub open spec fn all_hold(sites: Seq<Actor>, log: Seq<OpView>) -> bool {
    forall|q: int|
        0 <= q < sites.len() ==> (#[trigger] sites[q]).loro.log_view() == log && sites[q].loro.detached_view()
            is None
}

/// Synchronises every pair of replicas (by updates or by snapshots, in
/// turn) and checks that each pair then agrees. Every replica keeps what it
/// had and its history grows; when every check held, the last two replicas
/// show the same value.
/// Replicas that already hold one well-formed log keep it, every check
/// holds, and each value site 1 records is that log's.
fn check_synced(sites: &mut Vec<Actor>) -> (ok: bool)
    requires
        old(sites)@.len() >= 2,
    ensures
        final(sites)@.len() == old(sites)@.len(),
        forall|q: int| 0 <= q < old(sites)@.len() ==> site_grows(old(sites)@[q], #[trigger] final(sites)@[q]),
        final(sites)@[1].history@.len() == old(sites)@[1].history@.len() + old(sites)@.len() - 1,
        forall|q: int| 0 <= q < old(sites)@.len() && q != 1 ==> #[trigger] final(sites)@[q].history@.len()
            == old(sites)@[q].history@.len(),
        ok ==> doc_value(final(sites)@[final(sites)@.len() - 2].loro.state_log()) == doc_value(
            final(sites)@[final(sites)@.len() - 1].loro.state_log(),
        ),
        all_hold(old(sites)@, old(sites)@[0].loro.log_view()) && log_wf(old(sites)@[0].loro.log_view()) ==> ok
            && all_hold(final(sites)@, old(sites)@[0].loro.log_view()) && recorded_on(
            final(sites)@[1].history@,
            old(sites)@[1].history@.len() as int,
            old(sites)@[0].loro.log_view(),
        ),
{
    let n = sites.len();
    let mut ok = true;
    let mut i: usize = 0;
    let ghost l0 = sites@[0].loro.log_view();
    let ghost agree = all_hold(sites@, l0) && log_wf(l0);
    let ghost h1 = sites@[1].history@.len() as int;
    proof {
        assert forall|q: int| 0 <= q < n implies site_grows(old(sites)@[q], #[trigger] sites@[q]) by {
            lemma_site_grows_refl(sites@[q]);
        }
    }
    while i < n - 1
        invariant
            sites@.len() == n,
            n == old(sites)@.len(),
            n >= 2,
            i <= n - 1,
            forall|q: int| 0 <= q < n ==> site_grows(old(sites)@[q], #[trigger] sites@[q]),
            sites@[1].history@.len() == old(sites)@[1].history@.len() + synced_records(n as int, i as int, i + 1),
            forall|q: int| 0 <= q < n && q != 1 ==> #[trigger] sites@[q].history@.len() == old(sites)@[q].history@.len(),
            agree == (all_hold(old(sites)@, l0) && log_wf(l0)),
            l0 == old(sites)@[0].loro.log_view(),
            h1 == old(sites)@[1].history@.len(),
            agree ==> ok && all_hold(sites@, l0) && recorded_on(sites@[1].history@, h1, l0),
            i > 0 && ok ==> doc_value(sites@[i - 1].loro.state_log()) == doc_value(sites@[n - 1].loro.state_log()),
        decreases n - 1 - i,
    {
        let mut j: usize = i + 1;
        while j < n
            invariant
                sites@.len() == n,
                n == old(sites)@.len(),
                n >= 2,
                i < n - 1,
                i + 1 <= j <= n,
                forall|q: int| 0 <= q < n ==> site_grows(old(sites)@[q], #[trigger] sites@[q]),
                sites@[1].history@.len() == old(sites)@[1].history@.len() + synced_records(n as int, i as int, j as int),
                forall|q: int| 0 <= q < n && q != 1 ==> #[trigger] sites@[q].history@.len() == old(sites)@[q].history@.len(),
                agree == (all_hold(old(sites)@, l0) && log_wf(l0)),
                l0 == old(sites)@[0].loro.log_view(),
                h1 == old(sites)@[1].history@.len(),
                agree ==> ok && all_hold(sites@, l0) && recorded_on(sites@[1].history@, h1, l0),
                j > i + 1 && ok ==> doc_value(sites@[i as int].loro.state_log()) == doc_value(
                    sites@[j - 1].loro.state_log(),
                ),
            decreases n - j,
        {
            let ghost before = sites@;
            let snapshot = i % 2 != j % 2;
            if !exchange(sites, i, j, snapshot) {
                ok = false;
            }
            proof {
                if agree {
                    lemma_merge_same(before[i as int].loro, sites@[i as int].loro, before[j as int].loro, snapshot);
                    lemma_merge_same(before[j as int].loro, sites@[j as int].loro, sites@[i as int].loro, snapshot);
                    assert forall|q: int| 0 <= q < n implies (#[trigger] sites@[q]).loro.log_view() == l0
                        && sites@[q].loro.detached_view() is None by {
                        if q != i && q != j {
                            assert(sites@[q] == before[q]);
                        }
                    }
                    assert(sites@[1].history == before[1].history);
                }
            }
            proof {
                assert forall|q: int| 0 <= q < n implies site_grows(old(sites)@[q], #[trigger] sites@[q]) by {
                    if q == i as int || q == j as int {
                        assert(doc_grows(before[q].loro, sites@[q].loro));
                        lemma_site_grows_refl(sites@[q]);
                        assert(site_grows(before[q], sites@[q]));
                        lemma_site_grows_trans(old(sites)@[q], before[q], sites@[q]);
                    } else {
                        assert(sites@[q] == before[q]);
                    }
                }
            }
            if !check_eq(&sites[i], &sites[j]) {
                ok = false;
            }
            let ghost mid = sites@;
            if i == 1 {
                sites[i].record_history();
            }
            if j == 1 {
                sites[j].record_history();
            }
            proof {
                if agree {
                    assert forall|q: int| 0 <= q < n implies (#[trigger] sites@[q]).loro.log_view() == l0
                        && sites@[q].loro.detached_view() is None by {
                        assert(sites@[q].loro == mid[q].loro);
                    }
                    assert forall|k: int| h1 <= k < sites@[1].history@.len() implies #[trigger] crate::fuzz::sync::entry_on(
                        sites@[1].history@[k],
                        l0,
                    ) by {
                        if k < mid[1].history@.len() {
                            assert(sites@[1].history@[k] == mid[1].history@[k]);
                        }
                    }
                }
                assert forall|q: int| 0 <= q < n implies site_grows(old(sites)@[q], #[trigger] sites@[q]) by {
                    assert(sites@[q].history@.subrange(0, mid[q].history@.len() as int) =~= mid[q].history@);
                    assert(site_grows(mid[q], sites@[q]));
                    lemma_site_grows_trans(old(sites)@[q], mid[q], sites@[q]);
                }
                assert(sites@[i as int].loro == mid[i as int].loro);
                assert(sites@[j as int].loro == mid[j as int].loro);
            }
            j += 1;
        }
        i += 1;
    }
    ok
}

/// The value recorded as entry `i` of the history is, as `loose_eq` says,
/// the value the document shows at that entry's version.
pub open spec fn history_entry_holds(a: Actor, i: int) -> bool {
    loose_eq(a.history@[i].1@, doc_value(ops_within(a.loro.log_view(), a.history@[i].0.entries@)))
}

/// Checks out every recorded version and compares the value shown with the
/// value recorded then. A replica with no recorded version fails.
fn check_history(actor: &mut Actor) -> (ok: bool)
    ensures
        ok == (old(actor).history@.len() > 0 && forall|i: int|
            0 <= i < old(actor).history@.len() ==> #[trigger] history_entry_holds(*old(actor), i)),
        same_but_doc(*final(actor), *old(actor)),
        final(actor).loro.log_view() == old(actor).loro.log_view(),
        final(actor).loro.peer_view() == old(actor).loro.peer_view(),
{
    if actor.history.len() == 0 {
        return false;
    }
    let mut ok = true;
    let mut i: usize = 0;
    while i < actor.history.len()
        invariant
            i <= actor.history@.len(),
            same_but_doc(*actor, *old(actor)),
            actor.loro.log_view() == old(actor).loro.log_view(),
            actor.loro.peer_view() == old(actor).loro.peer_view(),
            ok == forall|j: int| 0 <= j < i ==> #[trigger] history_entry_holds(*old(actor), j),
        decreases actor.history.len() - i,
    {
        let _ = actor.loro.checkout(&actor.history[i].0);
        let actual = actor.loro.get_deep_value();
        if !assert_value_eq(&actor.history[i].1, &actual) {
            ok = false;
        }
        proof {
            assert(history_entry_holds(*old(actor), i as int) == loose_eq(actor.history@[i as int].1@, actual@));
        }
        i += 1;
    }
    ok
}

/// An action that names only replicas below `n`, and, for a sync, two
/// different ones.
pub open spec fn action_in_range(a: Action, n: int) -> bool {
    match a {
        Action::Sync { from, to } => from < n && to < n && from != to,
        Action::Mapping { site, .. } => site < n,
        Action::List { site, .. } => site < n,
        Action::Text { site, .. } => site < n,
        Action::SyncAll => true,
    }
}

/// On new replicas an action is brought into range as `first_normalized`
/// says, and in the shape `normalized_shape` gives for any replicas.
proof fn lemma_first_normalized(sites: Seq<Actor>, a: Action)
    requires
        2 <= sites.len() <= 255,
        forall|q: int| 0 <= q < sites.len() ==> fresh_actor(#[trigger] sites[q], q as PeerID),
    ensures
        normalized(sites, a) == first_normalized(sites.len() as u8, a),
{
    match a {
        Action::List { site, .. } => {
            let st = (site % (sites.len() as u8)) as u8;
            assert(fresh_actor(sites[st as int], st as PeerID));
        },
        Action::Text { site, .. } => {
            let st = (site % (sites.len() as u8)) as u8;
            assert(fresh_actor(sites[st as int], st as PeerID));
        },
        Action::Mapping { site, .. } => {
            let st = (site % (sites.len() as u8)) as u8;
            assert(fresh_actor(sites[st as int], st as PeerID));
        },
        _ => {},
    }
}

/// The value of an empty document agrees with itself.
proof fn lemma_empty_doc_loose_eq()
    ensures
        loose_eq(doc_value(Seq::<OpView>::empty()), doc_value(Seq::<OpView>::empty())),
{
    let e = Seq::<OpView>::empty();
    assert(roots(e) =~= Seq::<ContainerIdView>::empty());
    assert(roots_value(e, roots(e)) =~= Seq::<(Seq<char>, LoroValueView)>::empty());
}

/// Runs the actions on `site_num` replicas, then synchronises all of them
/// and checks convergence and the history of site 1. Returns whether every
/// step succeeded and every check held.
/// Each action is left as it was run, brought into range of the replicas
/// (`normalized_shape`; the first exactly as `first_normalized` says). With
/// no action, the new replicas sync, agree and replay their history, and
/// the result is true.
pub fn test_multi_sites(site_num: u8, actions: &mut [Action]) -> (ok: bool)
    requires
        site_num >= 2,
    ensures
        final(actions)@.len() == old(actions)@.len(),
        forall|k: int| 0 <= k < final(actions)@.len() ==> action_in_range(#[trigger] final(actions)@[k], site_num as int),
        forall|k: int| 0 <= k < final(actions)@.len() ==> normalized_shape(
            old(actions)@[k],
            #[trigger] final(actions)@[k],
            site_num,
        ),
        old(actions)@.len() > 0 ==> final(actions)@[0] == first_normalized(site_num, old(actions)@[0]),
        old(actions)@.len() == 0 ==> ok,
{
    let mut sites: Vec<Actor> = Vec::new();
    let mut i: u8 = 0;
    while i < site_num
        invariant
            i <= site_num,
            sites@.len() == i,
            forall|q: int| 0 <= q < i ==> fresh_actor(#[trigger] sites@[q], q as PeerID),
        decreases site_num - i,
    {
        sites.push(Actor::new(i as u64));
        i += 1;
    }
    let mut ok = true;
    let mut k: usize = 0;
    while k < actions.len()
        invariant
            sites@.len() == site_num,
            site_num >= 2,
            k <= actions@.len(),
            actions@.len() == old(actions)@.len(),
            forall|j: int| 0 <= j < k ==> action_in_range(#[trigger] actions@[j], site_num as int),
            forall|j: int| 0 <= j < k ==> normalized_shape(old(actions)@[j], #[trigger] actions@[j], site_num),
            forall|j: int| k <= j < actions@.len() ==> #[trigger] actions@[j] == old(actions)@[j],
            k == 0 ==> ok && forall|q: int| 0 <= q < site_num ==> fresh_actor(#[trigger] sites@[q], q as PeerID),
            k > 0 && old(actions)@.len() > 0 ==> actions@[0] == first_normalized(site_num, old(actions)@[0]),
        decreases actions.len() - k,
    {
        let mut action = actions[k];
        let ghost before = sites@;
        preprocess(&sites, &mut action);
        proof {
            if k == 0 {
                lemma_first_normalized(before, old(actions)@[0]);
            }
        }
        actions[k] = action;
        if !apply_action(&mut sites, &action) {
            ok = false;
        }
        k += 1;
    }
    proof {
        if old(actions)@.len() == 0 {
            assert(ok);
            assert forall|q: int| 0 <= q < sites@.len() implies (#[trigger] sites@[q]).loro.log_view() == sites@[0].loro.log_view()
                && sites@[q].loro.detached_view() is None by {
                assert(fresh_actor(sites@[q], q as PeerID));
                assert(fresh_actor(sites@[0], 0 as PeerID));
            }
            assert(fresh_actor(sites@[0], 0 as PeerID));
            assert(fresh_actor(sites@[1], 1 as PeerID));
        }
    }
    let ghost before_sync = sites@;
    if !check_synced(&mut sites) {
        ok = false;
    }
    proof {
        if old(actions)@.len() == 0 {
            let l0 = before_sync[0].loro.log_view();
            assert(l0 == Seq::<OpView>::empty());
            let h = sites@[1].history@;
            assert forall|i: int| 0 <= i < h.len() implies #[trigger] history_entry_holds(sites@[1], i) by {
                assert(crate::fuzz::sync::entry_on(h[i], l0));
                assert(ops_within(sites@[1].loro.log_view(), h[i].0.entries@) =~= Seq::<OpView>::empty());
                lemma_empty_doc_loose_eq();
            }
        }
    }
    if !check_history(&mut sites[1]) {
        ok = false;
    }
    ok
}

/// A size of a value that shrinks towards every nested value.
pub open spec fn val_size(v: LoroValueView) -> nat
    decreases v,
{
    match v {
        LoroValueView::List(l) => 1 + list_size(l),
        LoroValueView::Mapping(m) => 1 + pairs_size(m),
        _ => 1,
    }
}

pub open spec fn list_size(l: Seq<LoroValueView>) -> nat
    decreases l,
{
    if l.len() == 0 {
        0
    } else {
        list_size(l.drop_last()) + val_size(l.last())
    }
}

pub open spec fn pairs_size(m: Seq<(Seq<char>, LoroValueView)>) -> nat
    decreases m,
{
    if m.len() == 0 {
        0
    } else {
        pairs_size(m.drop_last()) + val_size(m.last().1)
    }
}

pub proof fn lemma_pairs_size(m: Seq<(Seq<char>, LoroValueView)>, i: int)
    requires
        0 <= i < m.len(),
    ensures
        val_size(m[i].1) <= pairs_size(m),
    decreases m.len(),
{
    if i < m.len() - 1 {
        lemma_pairs_size(m.drop_last(), i);
        assert(m.drop_last()[i] == m[i]);
    }
}

/// Whether a value counts as empty: an empty string, list or map.
pub open spec fn is_empty_value(v: LoroValueView) -> bool {
    match v {
        LoroValueView::String(s) => s.len() == 0,
        LoroValueView::List(l) => l.len() == 0,
        LoroValueView::Mapping(m) => m.len() == 0,
        _ => false,
    }
}

/// The index of the first entry with key `k`, or -1.
pub open spec fn key_pos(m: Seq<(Seq<char>, LoroValueView)>, k: Seq<char>) -> int
    decreases m.len(),
{
    if m.len() == 0 {
        -1
    } else if m[0].0 == k {
        0
    } else {
        let r = key_pos(m.drop_first(), k);
        if r < 0 {
            -1
        } else {
            r + 1
        }
    }
}

pub proof fn lemma_key_pos(m: Seq<(Seq<char>, LoroValueView)>, k: Seq<char>, i: int)
    requires
        0 <= i <= m.len(),
        forall|j: int| 0 <= j < i ==> m[j].0 != k,
        i < m.len() ==> m[i].0 == k,
    ensures
        key_pos(m, k) == (if i < m.len() { i } else { -1 }),
    decreases m.len(),
{
    if m.len() > 0 && i > 0 {
        let t = m.drop_first();
        assert forall|j: int| 0 <= j < i - 1 implies t[j].0 != k by {
            assert(t[j] == m[j + 1]);
        }
        lemma_key_pos(t, k, i - 1);
    }
}

pub proof fn lemma_key_pos_range(m: Seq<(Seq<char>, LoroValueView)>, k: Seq<char>)
    ensures
        -1 <= key_pos(m, k) < m.len(),
        key_pos(m, k) >= 0 ==> m[key_pos(m, k)].0 == k,
    decreases m.len(),
{
    if m.len() > 0 && m[0].0 != k {
        lemma_key_pos_range(m.drop_first(), k);
    }
}

/// Two values agree, where in maps an entry whose value is empty counts
/// as absent and every other entry must be present on both sides with
/// agreeing values.
pub open spec fn loose_eq(a: LoroValueView, b: LoroValueView) -> bool
    decreases val_size(a) + val_size(b), 0int,
{
    match (a, b) {
        (LoroValueView::Mapping(ma), LoroValueView::Mapping(mb)) => covers(ma, mb, ma.len() as int)
            && covers(mb, ma, mb.len() as int),
        _ => a == b,
    }
}

/// Each of the first `n` entries of `ma` is empty or has an agreeing
/// entry in `mb`.
pub open spec fn covers(ma: Seq<(Seq<char>, LoroValueView)>, mb: Seq<(Seq<char>, LoroValueView)>, n: int) -> bool
    decreases pairs_size(ma) + pairs_size(mb), n,
{
    if n <= 0 || n > ma.len() {
        true
    } else {
        let e = ma[n - 1];
        let j = key_pos(mb, e.0);
        proof {
            lemma_pairs_size(ma, n - 1);
            lemma_key_pos_range(mb, e.0);
            if j >= 0 {
                lemma_pairs_size(mb, j);
            }
        }
        covers(ma, mb, n - 1) && (is_empty_value(e.1) || (j >= 0 && loose_eq(e.1, mb[j].1)))
    }
}

pub proof fn lemma_covers_mono(
    ma: Seq<(Seq<char>, LoroValueView)>,
    mb: Seq<(Seq<char>, LoroValueView)>,
    n: int,
    m: int,
)
    requires
        0 <= m <= n <= ma.len(),
        covers(ma, mb, n),
    ensures
        covers(ma, mb, m),
    decreases n - m,
{
    if m < n {
        lemma_covers_mono(ma, mb, n - 1, m);
    }
}

fn is_empty_loro(v: &LoroValue) -> (r: bool)
    ensures
        r == is_empty_value(v@),
{
    match v {
        LoroValue::String(s) => s.as_str().is_empty(),
        LoroValue::List(l) => {
            proof {
                crate::common::lemma_values_view(l@);
            }
            l.len() == 0
        },
        LoroValue::Mapping(m) => {
            proof {
                crate::common::lemma_pairs_view(m@);
            }
            m.len() == 0
        },
        _ => false,
    }
}

/// Whether `a` and `b` agree as `loose_eq` says: maps compared entry by
/// entry in both directions, skipping empty values; anything else compared
/// exactly.
pub fn assert_value_eq(a: &LoroValue, b: &LoroValue) -> (r: bool)
    ensures
        r == loose_eq(a@, b@),
    decreases val_size(a@) + val_size(b@), 0int,
{
    match (a, b) {
        (LoroValue::Mapping(ma), LoroValue::Mapping(mb)) => {
            let c1 = covers_exec(ma, mb);
            let c2 = covers_exec(mb, ma);
            proof {
                crate::common::lemma_pairs_view(ma@);
                crate::common::lemma_pairs_view(mb@);
            }
            c1 && c2
        },
        _ => a.equals(b),
    }
}

fn covers_exec(ma: &Vec<(String, LoroValue)>, mb: &Vec<(String, LoroValue)>) -> (r: bool)
    ensures
        r == covers(pairs_view(ma@), pairs_view(mb@), ma@.len() as int),
    decreases pairs_size(pairs_view(ma@)) + pairs_size(pairs_view(mb@)), ma@.len() + 1,
{
    let ghost pa = pairs_view(ma@);
    let ghost pb = pairs_view(mb@);
    proof {
        crate::common::lemma_pairs_view(ma@);
        crate::common::lemma_pairs_view(mb@);
    }
    let mut i: usize = 0;
    while i < ma.len()
        invariant
            i <= ma.len(),
            pa == pairs_view(ma@),
            pb == pairs_view(mb@),
            pa.len() == ma@.len(),
            pb.len() == mb@.len(),
            forall|k: int| 0 <= k < ma@.len() ==> #[trigger] pa[k] == (ma@[k].0@, ma@[k].1@),
            forall|k: int| 0 <= k < mb@.len() ==> #[trigger] pb[k] == (mb@[k].0@, mb@[k].1@),
            covers(pa, pb, i as int),
        decreases ma.len() - i,
    {
        let e = &ma[i];
        let ghost ev = pa[i as int];
        if !is_empty_loro(&e.1) {
            let mut j: usize = 0;
            let mut found = false;
            while j < mb.len() && !found
                invariant
                    j <= mb.len(),
                    pb == pairs_view(mb@),
                    pb.len() == mb@.len(),
                    forall|k: int| 0 <= k < mb@.len() ==> #[trigger] pb[k] == (mb@[k].0@, mb@[k].1@),
                    forall|k: int| 0 <= k < j ==> pb[k].0 != e.0@,
                    found ==> j < mb.len() && pb[j as int].0 == e.0@,
                decreases mb.len() - j + (if found { 0int } else { 1int }),
            {
                if mb[j].0 == e.0 {
                    found = true;
                } else {
                    j += 1;
                }
            }
            proof {
                if found {
                    lemma_key_pos(pb, ev.0, j as int);
                } else {
                    lemma_key_pos(pb, ev.0, pb.len() as int);
                }
            }
            if !found {
                proof {
                    assert(!covers(pa, pb, i + 1));
                    if covers(pa, pb, pa.len() as int) {
                        lemma_covers_mono(pa, pb, pa.len() as int, i + 1);
                    }
                }
                return false;
            }
            proof {
                lemma_pairs_size(pa, i as int);
                lemma_pairs_size(pb, j as int);
            }
            if !assert_value_eq(&e.1, &mb[j].1) {
                proof {
                    assert(!covers(pa, pb, i + 1));
                    if covers(pa, pb, pa.len() as int) {
                        lemma_covers_mono(pa, pb, pa.len() as int, i + 1);
                    }
                }
                return false;
            }
        }
        i += 1;
    }
    true
}

} // verus!
