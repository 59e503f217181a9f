//! Styled text: the styles marks give each character, and the text as runs
//! of characters that share their styles.
use vstd::prelude::*;
use crate::common::{ContainerID, ContainerIdView, LoroValue, LoroValueView, lemma_pairs_view, pairs_view};
use crate::encoding::value_decode::{map_insert, map_put};
use crate::oplog::{ElemId, Op, OpContent, OpContentView, OpValue, OpView, ops_view};
use crate::state::{Elem, compute_seq_state, first_index, lemma_first_index, seq_state};

verus! {

/// Styles: keys and their values, each key once, in the order keys were
/// first set.
pub type Styles = Seq<(Seq<char>, LoroValueView)>;

/// Whether the mark from element `start` to element `end` covers the
/// element at index `j` of the sequence `s`: both ends are present and `j`
/// lies between them.
pub open spec fn mark_covers(s: Seq<Elem>, start: ElemId, end: ElemId, j: int) -> bool {
    let a = first_index(s, start);
    let b = first_index(s, end);
    a >= 0 && b >= 0 && a <= j && j <= b
}

/// The styles of element `j` of text `c` whose sequence is `s`: each mark
/// of the log, in order, that covers the element sets its key, so the last
/// such mark of each key wins.
pub open spec fn elem_styles(log: Seq<OpView>, c: ContainerIdView, s: Seq<Elem>, j: int) -> Styles
    decreases log.len(),
{
    if log.len() == 0 {
        Seq::empty()
    } else {
        let prev = elem_styles(log.drop_last(), c, s, j);
        let op = log.last();
        match op.content {
            OpContentView::Mark { start, end, key, value } => if op.container == c && mark_covers(
                s,
                start,
                end,
                j,
            ) {
                map_put(prev, key, LoroValueView::I64(value))
            } else {
                prev
            },
            _ => prev,
        }
    }
}

/// The runs of the first `n` elements of `s`: each visible character joins
/// the run before it when their styles are the same, and starts a new run
/// otherwise.
pub open spec fn style_spans(log: Seq<OpView>, c: ContainerIdView, s: Seq<Elem>, n: nat) -> Seq<
    (Seq<char>, Styles),
>
    decreases n,
{
    if n == 0 {
        Seq::empty()
    } else {
        let prev = style_spans(log, c, s, (n - 1) as nat);
        let e = s[n - 1];
        if !e.deleted && e.value is Char {
            let ch = e.value->Char_0;
            let st = elem_styles(log, c, s, n - 1);
            if prev.len() > 0 && prev.last().1 == st {
                prev.update(prev.len() - 1, (prev.last().0.push(ch), st))
            } else {
                prev.push((seq![ch], st))
            }
        } else {
            prev
        }
    }
}

/// The value of a run: its text under `insert`, and its styles under
/// `attributes` when it has any.
pub open spec fn span_value(sp: (Seq<char>, Styles)) -> LoroValueView {
    if sp.1.len() == 0 {
        LoroValueView::Mapping(seq![("insert"@, LoroValueView::String(sp.0))])
    } else {
        LoroValueView::Mapping(
            seq![("insert"@, LoroValueView::String(sp.0)), ("attributes"@, LoroValueView::Mapping(sp.1))],
        )
    }
}

/// The styled value of text `c` at `log`: its runs, in order.
pub open spec fn richtext_value(log: Seq<OpView>, c: ContainerIdView) -> LoroValueView {
    let s = seq_state(log, c);
    let sp = style_spans(log, c, s, s.len());
    LoroValueView::List(Seq::new(sp.len(), |i: int| span_value(sp[i])))
}

/// The index of the first element with id `id`, if there is one.
pub fn find_elem(s: &Vec<Elem>, id: ElemId) -> (r: Option<usize>)
    ensures
        match r {
            Some(i) => i as int == first_index(s@, id),
            None => first_index(s@, id) == -1,
        },
{
    let mut i: usize = 0;
    while i < s.len()
        invariant
            i <= s@.len(),
            forall|k: int| 0 <= k < i ==> s@[k].id != id,
        decreases s.len() - i,
    {
        if s[i].id == id {
            proof {
                lemma_first_index(s@, id, i as int);
            }
            return Some(i);
        }
        i += 1;
    }
    proof {
        lemma_first_index(s@, id, s@.len() as int);
    }
    None
}

/// The styles of element `j` of text `c`, whose sequence is `s`.
pub fn compute_elem_styles(log: &Vec<Op>, c: &ContainerID, s: &Vec<Elem>, j: usize) -> (r: Vec<(String, LoroValue)>)
    ensures
        pairs_view(r@) == elem_styles(ops_view(log@), c@, s@, j as int),
{
    let ghost lv = ops_view(log@);
    let mut r: Vec<(String, LoroValue)> = Vec::new();
    let mut i: usize = 0;
    assert(lv.take(0) =~= Seq::<OpView>::empty());
    assert(pairs_view(r@) =~= Seq::<(Seq<char>, LoroValueView)>::empty());
    while i < log.len()
        invariant
            i <= log@.len(),
            lv == ops_view(log@),
            pairs_view(r@) == elem_styles(lv.take(i as int), c@, s@, j as int),
        decreases log.len() - i,
    {
        assert(lv.take(i + 1).drop_last() =~= lv.take(i as int));
        assert(lv.take(i + 1).last() == log@[i as int]@);
        let op = &log[i];
        match &op.content {
            OpContent::Mark { start, end, key, value } => {
                if op.container.same(c) {
                    let a = find_elem(s, *start);
                    let b = find_elem(s, *end);
                    match (a, b) {
                        (Some(a), Some(b)) => {
                            if a <= j && j <= b {
                                map_insert(&mut r, key.clone(), LoroValue::I64(*value));
                            }
                        },
                        _ => {},
                    }
                }
            },
            _ => {},
        }
        i += 1;
    }
    assert(lv.take(log@.len() as int) =~= lv);
    r
}

/// Whether two styles are the same.
fn styles_equal(a: &Vec<(String, LoroValue)>, b: &Vec<(String, LoroValue)>) -> (r: bool)
    ensures
        r == (pairs_view(a@) == pairs_view(b@)),
{
    proof {
        lemma_pairs_view(a@);
        lemma_pairs_view(b@);
    }
    if a.len() != b.len() {
        return false;
    }
    let mut i: usize = 0;
    while i < a.len()
        invariant
            i <= a@.len(),
            a@.len() == b@.len(),
            pairs_view(a@).len() == a@.len(),
            pairs_view(b@).len() == b@.len(),
            forall|k: int| 0 <= k < a@.len() ==> #[trigger] pairs_view(a@)[k] == (a@[k].0@, a@[k].1@),
            forall|k: int| 0 <= k < b@.len() ==> #[trigger] pairs_view(b@)[k] == (b@[k].0@, b@[k].1@),
            forall|k: int| 0 <= k < i ==> pairs_view(a@)[k] == pairs_view(b@)[k],
        decreases a.len() - i,
    {
        if a[i].0 != b[i].0 || !a[i].1.equals(&b[i].1) {
            assert(pairs_view(a@)[i as int] != pairs_view(b@)[i as int]);
            return false;
        }
        i += 1;
    }
    assert(pairs_view(a@) =~= pairs_view(b@));
    true
}

/// The value of a run of characters with its styles.
fn make_span_value(chars: Vec<char>, styles: Vec<(String, LoroValue)>) -> (r: LoroValue)
    ensures
        r@ == span_value((chars@, pairs_view(styles@))),
{
    proof {
        lemma_pairs_view(styles@);
    }
    let text = crate::common::string_from_chars(&chars);
    let insert = String::from_str("insert");
    let mut entries: Vec<(String, LoroValue)> = Vec::new();
    entries.push((insert, LoroValue::String(text)));
    if styles.len() > 0 {
        let attributes = String::from_str("attributes");
        entries.push((attributes, LoroValue::Mapping(styles)));
    }
    proof {
        lemma_pairs_view(entries@);
    }
    let r = LoroValue::Mapping(entries);
    assert(pairs_view(entries@) =~= match span_value((chars@, pairs_view(styles@))) {
        LoroValueView::Mapping(m) => m,
        _ => Seq::empty(),
    });
    r
}

/// The styled value of text `c`: its runs of characters with the same
/// styles, in order.
pub fn compute_richtext_value(log: &Vec<Op>, c: &ContainerID) -> (r: LoroValue)
    ensures
        r@ == richtext_value(ops_view(log@), c@),
{
    let ghost lv = ops_view(log@);
    let s = compute_seq_state(log, c);
    let ghost sv = s@;
    let mut out: Vec<LoroValue> = Vec::new();
    let mut cur_chars: Vec<char> = Vec::new();
    let mut cur_styles: Vec<(String, LoroValue)> = Vec::new();
    let mut has_cur = false;
    let mut j: usize = 0;
    while j < s.len()
        invariant
            j <= s@.len(),
            sv == s@,
            sv == seq_state(lv, c@),
            lv == ops_view(log@),
            ({
                let sp = style_spans(lv, c@, sv, j as nat);
                &&& has_cur <==> sp.len() > 0
                &&& has_cur ==> out@.len() == sp.len() - 1 && cur_chars@ == sp.last().0 && pairs_view(
                    cur_styles@,
                ) == sp.last().1
                &&& !has_cur ==> out@.len() == 0
                &&& forall|k: int| 0 <= k < out@.len() ==> #[trigger] out@[k]@ == span_value(sp[k])
            }),
        decreases s.len() - j,
    {
        let e = s[j];
        let ghost prev = style_spans(lv, c@, sv, j as nat);
        match e.value {
            OpValue::Char(ch) => {
                if !e.deleted {
                    let st = compute_elem_styles(log, c, &s, j);
                    if has_cur && styles_equal(&cur_styles, &st) {
                        cur_chars.push(ch);
                        proof {
                            let sp = style_spans(lv, c@, sv, (j + 1) as nat);
                            assert(sp == prev.update(prev.len() - 1, (prev.last().0.push(ch), prev.last().1)));
                        }
                    } else {
                        if has_cur {
                            let mut chars: Vec<char> = Vec::new();
                            let mut styles: Vec<(String, LoroValue)> = Vec::new();
                            std::mem::swap(&mut chars, &mut cur_chars);
                            std::mem::swap(&mut styles, &mut cur_styles);
                            let v = make_span_value(chars, styles);
                            out.push(v);
                        }
                        cur_chars = Vec::new();
                        cur_chars.push(ch);
                        cur_styles = st;
                        has_cur = true;
                        proof {
                            let sp = style_spans(lv, c@, sv, (j + 1) as nat);
                            assert(sp == prev.push((seq![ch], pairs_view(cur_styles@))));
                            assert(cur_chars@ =~= seq![ch]);
                        }
                    }
                }
            },
            _ => {},
        }
        j += 1;
    }
    let ghost sp = style_spans(lv, c@, sv, sv.len());
    if has_cur {
        let v = make_span_value(cur_chars, cur_styles);
        out.push(v);
    }
    let r = LoroValue::List(out);
    proof {
        crate::common::lemma_values_view(out@);
        assert(crate::common::values_view(out@) =~= Seq::new(sp.len(), |i: int| span_value(sp[i])));
    }
    r
}

} // verus!
