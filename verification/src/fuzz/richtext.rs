//! The harness over one styled text: inserts, deletes and marks on several
//! replicas, checkouts of recorded versions, and synchronisation, followed
//! by checks that the replicas agree and that every recorded version reads
//! back as it was.
use vstd::prelude::*;
use crate::common::{ContainerID, ContainerIdView, ContainerType, LoroValue, PeerID, cid_type, decimal_chars};
use crate::fuzz::recursive_refactored::bracketed;
use crate::fuzz::sync::{
    doc_grows, edit_outcome, entry_on, lemma_edit_outcome_grows, lemma_merge_same, log_grows, merged,
    merged_log, recorded_on, sent,
};
use crate::loro::{LoroDoc, char_values, log_wf, seq_origin, seq_targets};
use crate::oplog::OpContentView;
use crate::richtext::richtext_value;
use crate::state::{doc_value, seq_state, visible};
use crate::version::{VersionVector, log_vv, ops_within};

verus! {

/// The style keys a mark may set.
pub open spec fn style_name(i: usize) -> Seq<char> {
    if i == 0 {
        "bold"@
    } else if i == 1 {
        "comment"@
    } else if i == 2 {
        "link"@
    } else {
        "highlight"@
    }
}

/// The number of style keys.
pub const STYLES_LEN: usize = 4;

/// The style key of index `i` (one of four).
pub fn style_name_of(i: usize) -> (r: &'static str)
    requires
        i < STYLES_LEN,
    ensures
        r@ == style_name(i),
{
    if i == 0 {
        "bold"
    } else if i == 1 {
        "comment"
    } else if i == 2 {
        "link"
    } else {
        "highlight"
    }
}

/// An edit of the styled text.
#[derive(Debug, Clone, Copy, PartialEq, Eq, Structural)]
pub enum RichTextAction {
    Insert,
    Delete,
    Mark(usize),
}

/// One step of a harness run.
#[derive(Debug, Clone, Copy, PartialEq, Eq, Structural)]
pub enum Action {
    RichText { site: u8, pos: usize, value: usize, action: RichTextAction },
    Checkout { site: u8, to: u32 },
    Sync { from: u8, to: u8 },
    SyncAll,
}

/// A value the harness may write.
#[derive(Debug, Clone, Copy, PartialEq, Eq, Structural)]
pub enum FuzzValue {
    Null,
    I32(i32),
    Container(ContainerType),
}

impl FuzzValue {
    /// The value a fuzz value writes; containers are not written as values.
    pub fn to_loro_value(&self) -> (r: LoroValue)
        requires
            !(*self is Container),
        ensures
            *self is Null ==> r@ == crate::common::LoroValueView::Null,
            *self is I32 ==> r@ == crate::common::LoroValueView::I64(self->I32_0 as i64),
    {
        match self {
            FuzzValue::Null => LoroValue::Null,
            FuzzValue::I32(i) => LoroValue::I64(*i as i64),
            FuzzValue::Container(_) => vstd::pervasive::unreached(),
        }
    }
}

/// A new replica of peer `id`: its document is empty, has peer `id` and
/// shows its latest version; its text is the root text; its history holds
/// one entry, the empty version and the empty document's value.
pub open spec fn fresh_actor(a: Actor, id: PeerID) -> bool {
    &&& a.peer == id
    &&& a.loro.peer_view() == id
    &&& a.loro.log_view() == Seq::<crate::oplog::OpView>::empty()
    &&& a.loro.detached_view() is None
    &&& a.text@ == ContainerIdView::Root { name: "text"@, container_type: ContainerType::Text }
    &&& a.history@.len() == 1
    &&& forall|p: PeerID| #[trigger] a.history@[0].0.spec_get(p) == 0
    &&& a.history@[0].1@ == doc_value(Seq::<crate::oplog::OpView>::empty())
}

/// One replica, its text, and the values it showed at recorded versions.
pub struct Actor {
    pub peer: PeerID,
    pub loro: LoroDoc,
    pub text: ContainerID,
    pub history: Vec<(VersionVector, LoroValue)>,
}

impl Actor {
    /// A replica with peer id `id`, whose history holds its empty version.
    pub fn new(id: PeerID) -> (r: Actor)
        ensures
            fresh_actor(r, id),
    {
        let mut loro = LoroDoc::new();
        let _ = loro.set_peer_id(id);
        let text = ContainerID::new_root("text", ContainerType::Text);
        let mut history: Vec<(VersionVector, LoroValue)> = Vec::new();
        history.push((VersionVector::new(), loro.get_deep_value()));
        Actor { peer: id, loro, text, history }
    }

    /// Returns to the latest version and records the value shown there.
    pub fn record_history(&mut self)
        ensures
            final(self).history@.len() == old(self).history@.len() + 1,
            final(self).history@.drop_last() == old(self).history@,
            final(self).peer == old(self).peer,
            final(self).text == old(self).text,
            final(self).loro.log_view() == old(self).loro.log_view(),
            final(self).loro.peer_view() == old(self).loro.peer_view(),
            final(self).loro.detached_view() is None,
            entry_on(final(self).history@.last(), old(self).loro.log_view()),
    {
        self.loro.attach();
        let vv = self.loro.oplog_vv();
        let value = self.loro.get_deep_value();
        self.history.push((vv, value));
        assert(self.history@.drop_last() =~= old(self).history@);
    }

    /// The number of visible characters of the text.
    pub fn text_len(&self) -> (r: usize)
        ensures
            r == visible(seq_state(self.loro.state_log(), self.text@)).len(),
    {
        self.loro.seq_len(&self.text)
    }
}

/// The sync between `from` and `to` brought into range for `n` replicas:
/// both modulo `n`, and `to` moved to the next replica (wrapping) when it
/// equals `from`.
pub open spec fn sync_in_range(from: u8, to: u8, n: u8) -> Action {
    let f = (from % n) as u8;
    let t = (to % n) as u8;
    if t == f {
        Action::Sync { from: f, to: if t + 1 < n { (t + 1) as u8 } else { 0 } }
    } else {
        Action::Sync { from: f, to: t }
    }
}

/// The length of `a`'s text at its latest version.
pub open spec fn latest_len(a: Actor) -> int {
    visible(seq_state(a.loro.log_view(), a.text@)).len() as int
}

/// The action `a` brought into range for the replicas `sites`, as
/// `preprocess` does it. A checkout takes its site modulo the number of
/// replicas and its version modulo that site's history length (when that
/// fits in 32 bits). An edit takes its site modulo the number of replicas
/// and works on the site's latest version: a delete or mark on an empty
/// text becomes an insert; an insert's position is taken modulo one more
/// than the length; a delete's or mark's position modulo the length and its
/// count modulo the room left, at least 1; a mark's style modulo the
/// number of styles.
pub open spec fn normalized(sites: Seq<Actor>, a: Action) -> Action {
    let n = sites.len() as u8;
    match a {
        Action::Sync { from, to } => sync_in_range(from, to, n),
        Action::SyncAll => Action::SyncAll,
        Action::Checkout { site, to } => {
            let st = (site % n) as u8;
            let h = sites[st as int].history@.len();
            Action::Checkout { site: st, to: if h > u32::MAX { to } else { (to % (h as u32)) as u32 } }
        },
        Action::RichText { site, pos, value, action } => {
            let st = (site % n) as u8;
            let len = latest_len(sites[st as int]);
            let kind = if len == 0 { RichTextAction::Insert } else { action };
            match kind {
                RichTextAction::Insert => Action::RichText {
                    site: st,
                    pos: if len < usize::MAX { (pos % ((len + 1) as usize)) as usize } else { pos },
                    value,
                    action: kind,
                },
                RichTextAction::Delete => {
                    let p = (pos % (len as usize)) as usize;
                    let v = (value % ((len - p) as usize)) as usize;
                    Action::RichText { site: st, pos: p, value: if v < 1 { 1 } else { v }, action: kind }
                },
                RichTextAction::Mark(i) => {
                    let p = (pos % (len as usize)) as usize;
                    let v = (value % ((len - p) as usize)) as usize;
                    Action::RichText {
                        site: st,
                        pos: p,
                        value: if v < 1 { 1 } else { v },
                        action: RichTextAction::Mark((i % STYLES_LEN) as usize),
                    }
                },
            }
        },
    }
}

/// The action `a` brought into range for `n` new replicas (empty texts,
/// one recorded version each): what the first action of a run becomes.
/// Every edit becomes an insert at 0 of the same value.
pub open spec fn first_normalized(n: u8, a: Action) -> Action {
    match a {
        Action::Sync { from, to } => sync_in_range(from, to, n),
        Action::SyncAll => Action::SyncAll,
        Action::Checkout { site, .. } => Action::Checkout { site: (site % n) as u8, to: 0 },
        Action::RichText { site, value, .. } => Action::RichText {
            site: (site % n) as u8,
            pos: 0,
            value,
            action: RichTextAction::Insert,
        },
    }
}

/// `b` is `a` brought into range for `n` replicas as far as that does not
/// depend on the replicas' contents: a sync as `sync_in_range` says, a sync
/// of all unchanged, a checkout or edit on the site modulo `n`.
pub open spec fn normalized_shape(a: Action, b: Action, n: u8) -> bool {
    match a {
        Action::Sync { from, to } => b == sync_in_range(from, to, n),
        Action::SyncAll => b == Action::SyncAll,
        Action::Checkout { site, .. } => b matches Action::Checkout { site: s2, .. } && s2 == site % n,
        Action::RichText { site, .. } => b matches Action::RichText { site: s2, .. } && s2 == site % n,
    }
}

/// Brings an action into range for the current replicas: sites modulo the
/// number of replicas (a sync never pairs a replica with itself), a
/// checkout to one of the recorded versions, and an edit inside the text of
/// a replica brought back to its latest version, where a delete or mark on
/// an empty text becomes an insert.
pub fn preprocess(sites: &mut Vec<Actor>, action: &mut Action)
    requires
        2 <= old(sites)@.len() <= 255,
        forall|i: int| 0 <= i < old(sites)@.len() ==> #[trigger] old(sites)@[i].history@.len() >= 1,
    ensures
        final(sites)@.len() == old(sites)@.len(),
        forall|i: int| 0 <= i < final(sites)@.len() ==> #[trigger] final(sites)@[i].history@.len()
            == old(sites)@[i].history@.len(),
        *final(action) == normalized(old(sites)@, *old(action)),
        match *final(action) {
            Action::Sync { from, to } => from < final(sites)@.len() && to < final(sites)@.len() && from
                != to,
            Action::Checkout { site, to } => site < final(sites)@.len() && to < final(sites)@[site as int].history@.len(),
            Action::RichText { site, pos, value, action } => {
                &&& site < final(sites)@.len()
                &&& final(sites)@[site as int].loro.detached_view() is None
                &&& {
                    let len = visible(
                        seq_state(
                            final(sites)@[site as int].loro.state_log(),
                            final(sites)@[site as int].text@,
                        ),
                    ).len();
                    match action {
                        RichTextAction::Insert => pos <= len,
                        RichTextAction::Delete => pos + value <= len && value >= 1,
                        RichTextAction::Mark(i) => pos + value <= len && value >= 1 && i
                            < STYLES_LEN,
                    }
                }
            },
            Action::SyncAll => true,
        },
{
    let n = sites.len() as u8;
    match *action {
        Action::Sync { from, to } => {
            let f = from % n;
            let mut t = to % n;
            if t == f {
                t = if f + 1 < n {
                    f + 1
                } else {
                    0
                };
            }
            *action = Action::Sync { from: f, to: t };
        },
        Action::SyncAll => {},
        Action::Checkout { site, to } => {
            let s = site % n;
            let h = sites[s as usize].history.len();
            let t = if h as u64 > u32::MAX as u64 {
                to
            } else {
                to % (h as u32)
            };
            *action = Action::Checkout { site: s, to: t };
        },
        Action::RichText { site, pos, value, action: kind } => {
            let s = site % n;
            let su = s as usize;
            let mut actor = sites.remove(su);
            actor.loro.attach();
            let length = actor.text_len();
            sites.insert(su, actor);
            let mut kind = kind;
            if length == 0 {
                match kind {
                    RichTextAction::Insert => {},
                    _ => {
                        kind = RichTextAction::Insert;
                    },
                }
            }
            let (p, v, k) = match kind {
                RichTextAction::Insert => (if length < usize::MAX {
                    pos % (length + 1)
                } else {
                    pos
                }, value, kind),
                RichTextAction::Delete => {
                    let p = pos % length;
                    let v = value % (length - p);
                    (p, if v < 1 { 1 } else { v }, kind)
                },
                RichTextAction::Mark(i) => {
                    let p = pos % length;
                    let v = value % (length - p);
                    (p, if v < 1 { 1 } else { v }, RichTextAction::Mark(i % STYLES_LEN))
                },
            };
            *action = Action::RichText { site: s, pos: p, value: v, action: k };
        },
    }
}

/// `y` is `x` but for its document.
pub open spec fn same_but_doc(y: Actor, x: Actor) -> bool {
    &&& y.peer == x.peer
    &&& y.text == x.text
    &&& y.history == x.history
}

/// `y` is `x` later on: the same peer and text, every op of `x`'s document
/// kept with its peer, and `x`'s history as the start of `y`'s.
pub open spec fn site_keeps(x: Actor, y: Actor) -> bool {
    &&& y.peer == x.peer
    &&& y.text == x.text
    &&& log_grows(x.loro, y.loro)
    &&& x.history@.len() <= y.history@.len()
    &&& y.history@.subrange(0, x.history@.len() as int) == x.history@
}

proof fn lemma_site_keeps_refl(x: Actor)
    ensures
        site_keeps(x, x),
{
    assert(x.history@.subrange(0, x.history@.len() as int) =~= x.history@);
}

proof fn lemma_site_keeps_trans(x: Actor, y: Actor, z: Actor)
    requires
        site_keeps(x, y),
        site_keeps(y, z),
    ensures
        site_keeps(x, z),
{
    assert(z.history@.subrange(0, x.history@.len() as int) =~= y.history@.subrange(0, x.history@.len() as int));
}

/// Exchanges updates between sites `a` and `b` in both directions, as
/// updates since the other's version or as whole snapshots: `a` merges
/// what `b` sends it, then `b` merges what `a` then sends it. The imports
/// always succeed.
fn exchange(sites: &mut Vec<Actor>, a: usize, b: usize, snapshot: bool) -> (ok: bool)
    requires
        a < old(sites)@.len(),
        b < old(sites)@.len(),
    ensures
        ok,
        final(sites)@.len() == old(sites)@.len(),
        forall|q: int| 0 <= q < old(sites)@.len() && q != a && q != b ==> #[trigger] final(sites)@[q] == old(sites)@[q],
        same_but_doc(final(sites)@[a as int], old(sites)@[a as int]),
        same_but_doc(final(sites)@[b as int], old(sites)@[b as int]),
        a != b ==> merged(
            old(sites)@[a as int].loro,
            final(sites)@[a as int].loro,
            sent(old(sites)@[a as int].loro, old(sites)@[b as int].loro, snapshot),
        ),
        a != b ==> merged(
            old(sites)@[b as int].loro,
            final(sites)@[b as int].loro,
            sent(old(sites)@[b as int].loro, final(sites)@[a as int].loro, snapshot),
        ),
        a == b ==> doc_grows(old(sites)@[a as int].loro, final(sites)@[a as int].loro),
{
    let ghost da = sites@[a as int].loro;
    let ghost db = sites@[b as int].loro;
    let updates_for_a = if snapshot {
        sites[b].loro.export_snapshot()
    } else {
        let vv = sites[a].loro.oplog_vv();
        let u = sites[b].loro.export_from(&vv);
        proof {
            assert forall|p: PeerID| crate::version::vv_lookup(vv.entries@, p) as int == log_vv(da.log_view(), p) by {
                assert(vv.spec_get(p) as int == log_vv(da.log_view(), p));
            }
            crate::version::lemma_ops_beyond_above(db.log_view(), vv.entries@, da.log_view());
        }
        u
    };
    assert(crate::oplog::ops_view(updates_for_a@) == sent(da, db, snapshot));
    let ok_a = sites[a].loro.import(&updates_for_a).is_ok();
    let ghost ma = sites@[a as int].loro;
    let ghost mb = sites@[b as int].loro;
    let updates_for_b = if snapshot {
        sites[a].loro.export_snapshot()
    } else {
        let vv = sites[b].loro.oplog_vv();
        let u = sites[a].loro.export_from(&vv);
        proof {
            assert forall|p: PeerID| crate::version::vv_lookup(vv.entries@, p) as int == log_vv(mb.log_view(), p) by {
                assert(vv.spec_get(p) as int == log_vv(mb.log_view(), p));
            }
            crate::version::lemma_ops_beyond_above(ma.log_view(), vv.entries@, mb.log_view());
        }
        u
    };
    assert(crate::oplog::ops_view(updates_for_b@) == sent(mb, ma, snapshot));
    let ok_b = sites[b].loro.import(&updates_for_b).is_ok();
    ok_a && ok_b
}

/// The end of a mark of `value` characters from `pos`, saturated at the
/// largest `usize`.
pub open spec fn mark_end(pos: usize, value: usize) -> int {
    if pos + value > usize::MAX {
        usize::MAX as int
    } else {
        pos + value
    }
}

/// The content of the op an edit of the styled text appends: an insert of
/// the bracketed decimal text of `value` at `pos`, a delete of `value`
/// characters from `pos`, or a mark of the characters from `pos` to
/// `mark_end(pos, value)` setting the style key to `pos` (as an `i32`).
pub open spec fn rich_edit_content(
    doc: LoroDoc,
    text: ContainerIdView,
    pos: usize,
    value: usize,
    action: RichTextAction,
) -> OpContentView {
    let vis = visible(seq_state(doc.state_log(), text));
    match action {
        RichTextAction::Insert => OpContentView::SeqInsert {
            origin: seq_origin(vis, pos as int),
            values: char_values(seq!['['] + decimal_chars((value as u64) as nat) + seq![']']),
        },
        RichTextAction::Delete => OpContentView::SeqDelete { targets: seq_targets(vis, pos as int, value as int) },
        RichTextAction::Mark(i) => OpContentView::Mark {
            start: vis[pos as int].id,
            end: vis[mark_end(pos, value) - 1].id,
            key: style_name(i),
            value: (pos as i32) as i64,
        },
    }
}

/// Whether an edit of the styled text is refused: on a detached document,
/// on a container that is no text, past the end of the text, over no
/// character for a mark, or with an unknown style key.
pub open spec fn rich_edit_refused(
    doc: LoroDoc,
    text: ContainerIdView,
    pos: usize,
    value: usize,
    action: RichTextAction,
) -> bool {
    let len = visible(seq_state(doc.state_log(), text)).len();
    ||| doc.detached_view() is Some
    ||| cid_type(text) != ContainerType::Text
    ||| match action {
        RichTextAction::Insert => pos > len,
        RichTextAction::Delete => pos + value > len,
        RichTextAction::Mark(i) => i >= STYLES_LEN || pos >= mark_end(pos, value) || mark_end(pos, value) > len,
    }
}

/// Applies one (preprocessed) action. Every replica keeps its peer, its
/// text, its ops and its history. A sync touches only its two replicas:
/// `from` merges the ops past its version that `to` sends it, then `to`
/// merges those that `from` then sends it; like a sync of all, it always
/// succeeds. A checkout shows the recorded version it names and succeeds.
/// An edit touches only its replica, whose document gets the op of the
/// edit when it goes through and is left as it was otherwise. Site 1
/// returns to its latest version and records its value after each action
/// but a checkout that touched it.
pub fn apply_action(sites: &mut Vec<Actor>, action: &Action) -> (ok: bool)
    requires
        old(sites)@.len() >= 2,
        match *action {
            Action::Sync { from, to } => from < old(sites)@.len() && to < old(sites)@.len(),
            Action::Checkout { site, to } => site < old(sites)@.len() && to < old(sites)@[site as int].history@.len(),
            Action::RichText { site, .. } => site < old(sites)@.len(),
            Action::SyncAll => true,
        },
    ensures
        final(sites)@.len() == old(sites)@.len(),
        forall|q: int| 0 <= q < old(sites)@.len() ==> site_keeps(old(sites)@[q], #[trigger] final(sites)@[q]),
        match *action {
            Action::Sync { from, to } => {
                &&& ok
                &&& forall|q: int|
                    0 <= q < old(sites)@.len() && q != from && q != to ==> #[trigger] final(sites)@[q] == old(sites)@[q]
                &&& from != to ==> merged_log(
                    old(sites)@[from as int].loro,
                    final(sites)@[from as int].loro,
                    sent(old(sites)@[from as int].loro, old(sites)@[to as int].loro, false),
                )
                &&& from != to ==> merged(
                    old(sites)@[to as int].loro,
                    final(sites)@[to as int].loro,
                    sent(old(sites)@[to as int].loro, final(sites)@[from as int].loro, false),
                )
                &&& final(sites)@[from as int].loro.detached_view() == (if old(sites)@[from as int].peer == 1 {
                    None
                } else {
                    old(sites)@[from as int].loro.detached_view()
                })
                &&& final(sites)@[from as int].history@.len() == old(sites)@[from as int].history@.len() + (
                if old(sites)@[from as int].peer == 1 {
                    1int
                } else {
                    0int
                })
                &&& from != to ==> final(sites)@[to as int].history == old(sites)@[to as int].history
            },
            Action::SyncAll => {
                &&& ok
                &&& final(sites)@[1].history@.len() == old(sites)@[1].history@.len() + 1
                &&& final(sites)@[1].loro.detached_view() is None
                &&& forall|q: int| 0 <= q < old(sites)@.len() && q != 1 ==> #[trigger] final(sites)@[q].history
                    == old(sites)@[q].history
            },
            Action::Checkout { site, to } => {
                &&& ok
                &&& final(sites)@[site as int].loro.detached_view() == Some(
                    old(sites)@[site as int].history@[to as int].0.entries@,
                )
                &&& final(sites)@[site as int].loro.log_view() == old(sites)@[site as int].loro.log_view()
                &&& forall|q: int| 0 <= q < old(sites)@.len() && q != site ==> #[trigger] final(sites)@[q] == old(sites)@[q]
            },
            Action::RichText { site, pos, value, action } => {
                let d = old(sites)@[site as int].loro;
                let text = old(sites)@[site as int].text@;
                &&& edit_outcome(
                    d,
                    final(sites)@[site as int].loro,
                    ok,
                    text,
                    rich_edit_content(d, text, pos, value, action),
                    rich_edit_refused(d, text, pos, value, action),
                )
                &&& final(sites)@[site as int].loro.detached_view() == (if old(sites)@[site as int].peer == 1 {
                    None
                } else {
                    d.detached_view()
                })
                &&& final(sites)@[site as int].history@.len() == old(sites)@[site as int].history@.len() + (
                if old(sites)@[site as int].peer == 1 {
                    1int
                } else {
                    0int
                })
                &&& forall|q: int| 0 <= q < old(sites)@.len() && q != site ==> #[trigger] final(sites)@[q] == old(sites)@[q]
            },
        },
{
    match *action {
        Action::Sync { from, to } => {
            let a = from as usize;
            let b = to as usize;
            let ok = exchange(sites, a, b, false);
            let ghost s1 = sites@;
            if sites[a].peer == 1 {
                sites[a].record_history();
            }
            proof {
                assert forall|q: int| 0 <= q < s1.len() implies site_keeps(old(sites)@[q], #[trigger] sites@[q]) by {
                    lemma_site_keeps_refl(s1[q]);
                    if q == a || q == b {
                        assert(doc_grows(old(sites)@[q].loro, s1[q].loro));
                        assert(site_keeps(old(sites)@[q], s1[q]));
                    } else {
                        assert(s1[q] == old(sites)@[q]);
                    }
                    assert(sites@[q].history@.subrange(0, s1[q].history@.len() as int) =~= s1[q].history@);
                    assert(site_keeps(s1[q], sites@[q]));
                    lemma_site_keeps_trans(old(sites)@[q], s1[q], sites@[q]);
                }
                assert forall|q: int| 0 <= q < old(sites)@.len() && q != from && q != to implies #[trigger] sites@[q] == old(sites)@[q] by {
                    assert(s1[q] == old(sites)@[q]);
                }
            }
            ok
        },
        Action::SyncAll => {
            let mut ok = true;
            let n = sites.len();
            proof {
                assert forall|q: int| 0 <= q < n implies site_keeps(old(sites)@[q], #[trigger] sites@[q]) by {
                    lemma_site_keeps_refl(sites@[q]);
                }
            }
            let mut i: usize = 1;
            while i < n
                invariant
                    1 <= i <= n,
                    sites@.len() == n,
                    n >= 2,
                    n == old(sites)@.len(),
                    ok,
                    forall|q: int| 0 <= q < n ==> site_keeps(old(sites)@[q], #[trigger] sites@[q]),
                    forall|q: int| 0 <= q < n ==> #[trigger] sites@[q].history == old(sites)@[q].history,
                decreases n - i,
            {
                let ghost s0 = sites@;
                let vv = sites[0].loro.oplog_vv();
                let updates = sites[i].loro.export_from(&vv);
                if sites[0].loro.import(&updates).is_err() {
                    ok = false;
                }
                proof {
                    assert forall|q: int| 0 <= q < n implies site_keeps(old(sites)@[q], #[trigger] sites@[q]) by {
                        lemma_site_keeps_refl(s0[q]);
                        if q == 0 {
                            assert(sites@[q].history == s0[q].history);
                            assert(site_keeps(s0[q], sites@[q]));
                            lemma_site_keeps_trans(old(sites)@[q], s0[q], sites@[q]);
                        } else {
                            assert(sites@[q] == s0[q]);
                        }
                    }
                }
                i += 1;
            }
            let mut i: usize = 1;
            while i < n
                invariant
                    1 <= i <= n,
                    sites@.len() == n,
                    n >= 2,
                    n == old(sites)@.len(),
                    ok,
                    forall|q: int| 0 <= q < n ==> site_keeps(old(sites)@[q], #[trigger] sites@[q]),
                    forall|q: int| 0 <= q < n ==> #[trigger] sites@[q].history == old(sites)@[q].history,
                decreases n - i,
            {
                let ghost s0 = sites@;
                let vv = sites[i].loro.oplog_vv();
                let updates = sites[0].loro.export_from(&vv);
                if sites[i].loro.import(&updates).is_err() {
                    ok = false;
                }
                proof {
                    assert forall|q: int| 0 <= q < n implies site_keeps(old(sites)@[q], #[trigger] sites@[q]) by {
                        lemma_site_keeps_refl(s0[q]);
                        if q == i {
                            assert(sites@[q].history == s0[q].history);
                            assert(site_keeps(s0[q], sites@[q]));
                            lemma_site_keeps_trans(old(sites)@[q], s0[q], sites@[q]);
                        } else {
                            assert(sites@[q] == s0[q]);
                        }
                    }
                }
                i += 1;
            }
            let ghost s2 = sites@;
            sites[1].record_history();
            proof {
                assert forall|q: int| 0 <= q < n implies site_keeps(old(sites)@[q], #[trigger] sites@[q]) by {
                    assert(sites@[q].history@.subrange(0, s2[q].history@.len() as int) =~= s2[q].history@);
                    lemma_site_keeps_refl(s2[q]);
                    assert(site_keeps(s2[q], sites@[q]));
                    lemma_site_keeps_trans(old(sites)@[q], s2[q], sites@[q]);
                }
            }
            ok
        },
        Action::Checkout { site, to } => {
            let s = site as usize;
            let vv = sites[s].history[to as usize].0.duplicate();
            let r = sites[s].loro.checkout(&vv).is_ok();
            proof {
                assert forall|q: int| 0 <= q < old(sites)@.len() implies site_keeps(old(sites)@[q], #[trigger] sites@[q]) by {
                    lemma_site_keeps_refl(old(sites)@[q]);
                    if q != s as int {
                        assert(sites@[q] == old(sites)@[q]);
                    }
                }
            }
            r
        },
        Action::RichText { site, pos, value, action } => {
            let s = site as usize;
            let text = sites[s].text.duplicate();
            let ok = match action {
                RichTextAction::Insert => {
                    let chars = bracketed(value as u64);
                    sites[s].loro.text_insert(&text, pos, &chars).is_ok()
                },
                RichTextAction::Delete => sites[s].loro.text_delete(&text, pos, value).is_ok(),
                RichTextAction::Mark(i) => {
                    if i < STYLES_LEN {
                        let key = style_name_of(i);
                        let mark_value = (pos as i32) as i64;
                        sites[s].loro.text_mark(&text, pos, pos.saturating_add(value), key, mark_value).is_ok()
                    } else {
                        false
                    }
                },
            };
            let ghost s1 = sites@;
            if sites[s].peer == 1 {
                sites[s].record_history();
            }
            proof {
                let d0 = old(sites)@[s as int].loro;
                let ct = rich_edit_content(d0, text@, pos, value, action);
                let rf = rich_edit_refused(d0, text@, pos, value, action);
                assert(edit_outcome(d0, s1[s as int].loro, ok, text@, ct, rf));
                assert(edit_outcome(d0, sites@[s as int].loro, ok, text@, ct, rf));
                lemma_edit_outcome_grows(d0, sites@[s as int].loro, ok, text@, ct, rf);
                assert forall|q: int| 0 <= q < old(sites)@.len() implies site_keeps(old(sites)@[q], #[trigger] sites@[q]) by {
                    if q == s as int {
                        assert(sites@[q].history@.subrange(0, old(sites)@[q].history@.len() as int) =~= old(sites)@[q].history@);
                        assert(site_keeps(old(sites)@[q], sites@[q]));
                    } else {
                        assert(sites@[q] == old(sites)@[q]);
                        lemma_site_keeps_refl(sites@[q]);
                    }
                }
            }
            ok
        },
    }
}

/// Whether two replicas show the same styled text.
fn check_eq(a: &Actor, b: &Actor) -> (r: bool)
    ensures
        r == (richtext_value(a.loro.state_log(), a.text@) == richtext_value(b.loro.state_log(), b.text@)),
{
    let va = a.loro.get_richtext_value(&a.text);
    let vb = b.loro.get_richtext_value(&b.text);
    va.equals(&vb)
}

/// The styled text a replica shows.
pub open spec fn shown_text(a: Actor) -> crate::common::LoroValueView {
    richtext_value(a.loro.state_log(), a.text@)
}

/// Every replica holds the log `log` and has the text `text`.
pub open spec fn all_hold(sites: Seq<Actor>, log: Seq<crate::oplog::OpView>, text: ContainerIdView) -> bool {
    forall|q: int| 0 <= q < sites.len() ==> (#[trigger] sites[q]).loro.log_view() == log && sites[q].text@ == text
}

/// How many values site 1 has recorded once every pair of replicas before
/// `(i, j)` (pairs taken as `i < j`, in order) was synchronised, with `n`
/// replicas: one after each synchronisation it took part in.
spec fn synced_records(n: int, i: int, j: int) -> int {
    if i == 0 {
        if j > 1 {
            1
        } else {
            0
        }
    } else if i == 1 {
        j - 1
    } else {
        n - 1
    }
}

/// Brings every pair of replicas back to their latest versions,
/// synchronises them (by updates or by snapshots, in turn) and checks that
/// each pair then shows the same styled text. Every replica keeps what it
/// had, grows its history and ends at its latest version; when every check
/// held, the last two replicas show the same styled text.
/// Replicas that already hold one well-formed log keep it, every check
/// holds, and each value site 1 records is that log's.
fn check_synced(sites: &mut Vec<Actor>) -> (ok: bool)
    requires
        old(sites)@.len() >= 2,
    ensures
        final(sites)@.len() == old(sites)@.len(),
        forall|q: int| 0 <= q < old(sites)@.len() ==> site_keeps(old(sites)@[q], #[trigger] final(sites)@[q]),
        forall|q: int| 0 <= q < old(sites)@.len() ==> (#[trigger] final(sites)@[q]).loro.detached_view() is None,
        final(sites)@[1].history@.len() == old(sites)@[1].history@.len() + old(sites)@.len() - 1,
        forall|q: int| 0 <= q < old(sites)@.len() && q != 1 ==> #[trigger] final(sites)@[q].history@.len()
            == old(sites)@[q].history@.len(),
        ok ==> shown_text(final(sites)@[final(sites)@.len() - 2]) == shown_text(
            final(sites)@[final(sites)@.len() - 1],
        ),
        all_hold(old(sites)@, old(sites)@[0].loro.log_view(), old(sites)@[0].text@) && log_wf(
            old(sites)@[0].loro.log_view(),
        ) ==> ok && all_hold(final(sites)@, old(sites)@[0].loro.log_view(), old(sites)@[0].text@)
            && recorded_on(final(sites)@[1].history@, old(sites)@[1].history@.len() as int, old(sites)@[0].loro.log_view()),
{
    let n = sites.len();
    let mut ok = true;
    let mut i: usize = 0;
    let ghost l0 = sites@[0].loro.log_view();
    let ghost t0 = sites@[0].text@;
    let ghost agree = all_hold(sites@, l0, t0) && log_wf(l0);
    let ghost h1 = sites@[1].history@.len() as int;
    proof {
        assert forall|q: int| 0 <= q < n implies site_keeps(old(sites)@[q], #[trigger] sites@[q]) by {
            lemma_site_keeps_refl(sites@[q]);
        }
    }
    while i < n - 1
        invariant
            sites@.len() == n,
            n == old(sites)@.len(),
            n >= 2,
            i <= n - 1,
            forall|q: int| 0 <= q < n ==> site_keeps(old(sites)@[q], #[trigger] sites@[q]),
            i > 0 ==> forall|q: int| 0 <= q < n ==> (#[trigger] sites@[q]).loro.detached_view() is None,
            sites@[1].history@.len() == old(sites)@[1].history@.len() + synced_records(n as int, i as int, i + 1),
            forall|q: int| 0 <= q < n && q != 1 ==> #[trigger] sites@[q].history@.len() == old(sites)@[q].history@.len(),
            agree == (all_hold(old(sites)@, l0, t0) && log_wf(l0)),
            l0 == old(sites)@[0].loro.log_view(),
            t0 == old(sites)@[0].text@,
            h1 == old(sites)@[1].history@.len(),
            agree ==> ok && all_hold(sites@, l0, t0) && recorded_on(sites@[1].history@, h1, l0),
            i > 0 && ok ==> shown_text(sites@[i - 1]) == shown_text(sites@[n - 1]),
        decreases n - 1 - i,
    {
        let mut j: usize = i + 1;
        while j < n
            invariant
                sites@.len() == n,
                n == old(sites)@.len(),
                n >= 2,
                i < n - 1,
                i + 1 <= j <= n,
                forall|q: int| 0 <= q < n ==> site_keeps(old(sites)@[q], #[trigger] sites@[q]),
                i > 0 ==> forall|q: int| 0 <= q < n ==> (#[trigger] sites@[q]).loro.detached_view() is None,
                i == 0 ==> forall|q: int| 1 <= q < j ==> (#[trigger] sites@[q]).loro.detached_view() is None,
                j > i + 1 ==> sites@[i as int].loro.detached_view() is None,
                sites@[1].history@.len() == old(sites)@[1].history@.len() + synced_records(n as int, i as int, j as int),
                forall|q: int| 0 <= q < n && q != 1 ==> #[trigger] sites@[q].history@.len() == old(sites)@[q].history@.len(),
                agree == (all_hold(old(sites)@, l0, t0) && log_wf(l0)),
                l0 == old(sites)@[0].loro.log_view(),
                t0 == old(sites)@[0].text@,
                h1 == old(sites)@[1].history@.len(),
                agree ==> ok && all_hold(sites@, l0, t0) && recorded_on(sites@[1].history@, h1, l0),
                j > i + 1 && ok ==> shown_text(sites@[i as int]) == shown_text(sites@[j - 1]),
            decreases n - j,
        {
            let ghost s0 = sites@;
            sites[i].loro.attach();
            sites[j].loro.attach();
            let ghost before = sites@;
            proof {
                assert forall|q: int| 0 <= q < n implies site_keeps(s0[q], #[trigger] before[q]) by {
                    lemma_site_keeps_refl(before[q]);
                    if q != i && q != j {
                        assert(before[q] == s0[q]);
                    } else {
                        assert(before[q].history@.subrange(0, s0[q].history@.len() as int) =~= s0[q].history@);
                    }
                }
            }
            let snapshot = i % 2 != j % 2;
            if !exchange(sites, i, j, snapshot) {
                ok = false;
            }
            proof {
                if agree {
                    lemma_merge_same(before[i as int].loro, sites@[i as int].loro, before[j as int].loro, snapshot);
                    lemma_merge_same(before[j as int].loro, sites@[j as int].loro, sites@[i as int].loro, snapshot);
                    assert forall|q: int| 0 <= q < n implies (#[trigger] sites@[q]).loro.log_view() == l0
                        && sites@[q].text@ == t0 by {
                        if q != i && q != j {
                            assert(sites@[q] == before[q]);
                            assert(before[q] == s0[q]);
                        }
                    }
                    assert(sites@[1].history == s0[1].history);
                }
            }
            proof {
                assert forall|q: int| 0 <= q < n implies site_keeps(old(sites)@[q], #[trigger] sites@[q]) by {
                    lemma_site_keeps_refl(sites@[q]);
                    if q == i as int || q == j as int {
                        assert(doc_grows(before[q].loro, sites@[q].loro));
                        assert(sites@[q].history == before[q].history);
                        assert(site_keeps(before[q], sites@[q]));
                    } else {
                        assert(sites@[q] == before[q]);
                    }
                    lemma_site_keeps_trans(s0[q], before[q], sites@[q]);
                    lemma_site_keeps_trans(old(sites)@[q], s0[q], sites@[q]);
                }
            }
            if !check_eq(&sites[i], &sites[j]) {
                ok = false;
            }
            let ghost mid = sites@;
            if i == 1 {
                sites[i].record_history();
            }
            if j == 1 {
                sites[j].record_history();
            }
            proof {
                if agree {
                    assert forall|q: int| 0 <= q < n implies (#[trigger] sites@[q]).loro.log_view() == l0
                        && sites@[q].text@ == t0 by {
                        assert(sites@[q].loro.log_view() == mid[q].loro.log_view());
                    }
                    assert forall|k: int| h1 <= k < sites@[1].history@.len() implies #[trigger] entry_on(
                        sites@[1].history@[k],
                        l0,
                    ) by {
                        if k < mid[1].history@.len() {
                            assert(sites@[1].history@[k] == mid[1].history@[k]);
                        }
                    }
                }
                assert forall|q: int| 0 <= q < n implies site_keeps(old(sites)@[q], #[trigger] sites@[q]) by {
                    assert(sites@[q].history@.subrange(0, mid[q].history@.len() as int) =~= mid[q].history@);
                    assert(site_keeps(mid[q], sites@[q]));
                    lemma_site_keeps_trans(old(sites)@[q], mid[q], sites@[q]);
                }
                assert(sites@[i as int].loro.log_view() == mid[i as int].loro.log_view());
                assert(sites@[j as int].loro.log_view() == mid[j as int].loro.log_view());
                assert(sites@[i as int].loro.state_log() == mid[i as int].loro.state_log());
                assert(sites@[j as int].loro.state_log() == mid[j as int].loro.state_log());
            }
            j += 1;
        }
        i += 1;
    }
    ok
}

/// The value recorded as entry `i` of the history is the value the
/// document shows at that entry's version.
pub open spec fn history_entry_holds(a: Actor, i: int) -> bool {
    a.history@[i].1@ == doc_value(ops_within(a.loro.log_view(), a.history@[i].0.entries@))
}

/// Checks out every recorded version and compares the value shown with the
/// value recorded then. A replica with no recorded version fails.
fn check_history(actor: &mut Actor) -> (ok: bool)
    ensures
        ok == (old(actor).history@.len() > 0 && forall|i: int|
            0 <= i < old(actor).history@.len() ==> #[trigger] history_entry_holds(*old(actor), i)),
        same_but_doc(*final(actor), *old(actor)),
        final(actor).loro.log_view() == old(actor).loro.log_view(),
        final(actor).loro.peer_view() == old(actor).loro.peer_view(),
{
    if actor.history.len() == 0 {
        return false;
    }
    let mut ok = true;
    let mut i: usize = 0;
    while i < actor.history.len()
        invariant
            i <= actor.history@.len(),
            same_but_doc(*actor, *old(actor)),
            actor.loro.log_view() == old(actor).loro.log_view(),
            actor.loro.peer_view() == old(actor).loro.peer_view(),
            ok == forall|j: int| 0 <= j < i ==> #[trigger] history_entry_holds(*old(actor), j),
        decreases actor.history.len() - i,
    {
        let _ = actor.loro.checkout(&actor.history[i].0);
        let actual = actor.loro.get_deep_value();
        if !actor.history[i].1.equals(&actual) {
            ok = false;
        }
        proof {
            assert(history_entry_holds(*old(actor), i as int) == (actor.history@[i as int].1@ == actual@));
        }
        i += 1;
    }
    ok
}

/// An action that names only replicas below `n` (two different ones for a
/// sync), whose deletes and marks cover at least one character, and whose
/// marks set one of the style keys.
pub open spec fn action_in_range(a: Action, n: int) -> bool {
    match a {
        Action::Sync { from, to } => from < n && to < n && from != to,
        Action::Checkout { site, .. } => site < n,
        Action::RichText { site, value, action, .. } => site < n && match action {
            RichTextAction::Insert => true,
            RichTextAction::Delete => value >= 1,
            RichTextAction::Mark(i) => value >= 1 && i < STYLES_LEN,
        },
        Action::SyncAll => true,
    }
}

/// On new replicas an action is brought into range as `first_normalized`
/// says.
proof fn lemma_first_normalized(sites: Seq<Actor>, a: Action)
    requires
        2 <= sites.len() <= 255,
        forall|q: int| 0 <= q < sites.len() ==> fresh_actor(#[trigger] sites[q], q as PeerID),
    ensures
        normalized(sites, a) == first_normalized(sites.len() as u8, a),
{
    match a {
        Action::RichText { site, .. } => {
            let st = (site % (sites.len() as u8)) as u8;
            assert(fresh_actor(sites[st as int], st as PeerID));
        },
        Action::Checkout { site, .. } => {
            let st = (site % (sites.len() as u8)) as u8;
            assert(fresh_actor(sites[st as int], st as PeerID));
        },
        _ => {},
    }
}

/// Runs the actions on `site_num` replicas, then synchronises all of them
/// and checks convergence of the styled text and the history of site 1.
/// Returns whether every step succeeded and every check held.
/// Each action is left as it was run, brought into range of the replicas
/// (`normalized_shape`; the first exactly as `first_normalized` says). With
/// no action, the new replicas sync, agree and replay their history, and
/// the result is true.
pub fn test_multi_sites(site_num: u8, actions: &mut [Action]) -> (ok: bool)
    requires
        site_num >= 2,
    ensures
        final(actions)@.len() == old(actions)@.len(),
        forall|k: int| 0 <= k < final(actions)@.len() ==> action_in_range(#[trigger] final(actions)@[k], site_num as int),
        forall|k: int| 0 <= k < final(actions)@.len() ==> normalized_shape(
            old(actions)@[k],
            #[trigger] final(actions)@[k],
            site_num,
        ),
        old(actions)@.len() > 0 ==> final(actions)@[0] == first_normalized(site_num, old(actions)@[0]),
        old(actions)@.len() == 0 ==> ok,
{
    let mut sites: Vec<Actor> = Vec::new();
    let mut i: u8 = 0;
    while i < site_num
        invariant
            i <= site_num,
            sites@.len() == i,
            forall|q: int| 0 <= q < sites@.len() ==> fresh_actor(#[trigger] sites@[q], q as PeerID),
        decreases site_num - i,
    {
        sites.push(Actor::new(i as u64));
        i += 1;
    }
    assert forall|q: int| 0 <= q < sites@.len() implies #[trigger] sites@[q].history@.len() >= 1 by {
        assert(fresh_actor(sites@[q], q as PeerID));
    }
    let mut ok = true;
    let mut k: usize = 0;
    while k < actions.len()
        invariant
            sites@.len() == site_num,
            site_num >= 2,
            forall|q: int| 0 <= q < sites@.len() ==> #[trigger] sites@[q].history@.len() >= 1,
            k <= actions@.len(),
            actions@.len() == old(actions)@.len(),
            forall|j: int| 0 <= j < k ==> action_in_range(#[trigger] actions@[j], site_num as int),
            forall|j: int| 0 <= j < k ==> normalized_shape(old(actions)@[j], #[trigger] actions@[j], site_num),
            forall|j: int| k <= j < actions@.len() ==> #[trigger] actions@[j] == old(actions)@[j],
            k == 0 ==> ok && forall|q: int| 0 <= q < site_num ==> fresh_actor(#[trigger] sites@[q], q as PeerID),
            k > 0 && old(actions)@.len() > 0 ==> actions@[0] == first_normalized(site_num, old(actions)@[0]),
        decreases actions.len() - k,
    {
        let mut action = actions[k];
        let ghost before = sites@;
        proof {
            if k == 0 {
                lemma_first_normalized(before, old(actions)@[0]);
            }
        }
        preprocess(&mut sites, &mut action);
        actions[k] = action;
        if !apply_action(&mut sites, &action) {
            ok = false;
        }
        k += 1;
    }
    proof {
        if old(actions)@.len() == 0 {
            assert forall|q: int| 0 <= q < sites@.len() implies (#[trigger] sites@[q]).loro.log_view() == sites@[0].loro.log_view()
                && sites@[q].text@ == sites@[0].text@ by {
                assert(fresh_actor(sites@[q], q as PeerID));
                assert(fresh_actor(sites@[0], 0 as PeerID));
            }
            assert(fresh_actor(sites@[0], 0 as PeerID));
            assert(fresh_actor(sites@[1], 1 as PeerID));
        }
    }
    let ghost before_sync = sites@;
    if !check_synced(&mut sites) {
        ok = false;
    }
    proof {
        if old(actions)@.len() == 0 {
            let l0 = before_sync[0].loro.log_view();
            let h = sites@[1].history@;
            assert(h.subrange(0, 1) == before_sync[1].history@);
            assert forall|i: int| 0 <= i < h.len() implies #[trigger] history_entry_holds(sites@[1], i) by {
                assert(ops_within(sites@[1].loro.log_view(), h[i].0.entries@) =~= Seq::<crate::oplog::OpView>::empty());
                if i == 0 {
                    assert(h[0] == h.subrange(0, 1)[0]);
                } else {
                    assert(entry_on(h[i], l0));
                }
            }
        }
    }
    if !check_history(&mut sites[1]) {
        ok = false;
    }
    ok
}

} // verus!
