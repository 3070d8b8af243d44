use crate::telemetry::Telemetry;
use vstd::prelude::*;

verus! {

/// Holds exactly when `ts` lies in the closed range `[from, to]`.
/// When `from > to` no value can satisfy it.
pub open spec fn in_range(ts: u64, from: u64, to: u64) -> bool {
    from <= ts && ts <= to
}

/// The selection predicate of `get_part`, lifted to whole records: a record
/// qualifies when its timestamp lies in the closed range `[from, to]`.
pub open spec fn range_pred(from: u64, to: u64) -> spec_fn(Telemetry) -> bool {
    |t: Telemetry| in_range(t.time_stamp, from, to)
}

/// One link of a singly linked chain of telemetry records. Each node owns
/// its successor, so a chain is finite and acyclic by construction, and
/// traversal order is fixed as the ownership order, head to tail.
#[derive(Debug, PartialEq)]
pub struct ListNode {
    pub val: Telemetry,
    pub next: Option<Box<ListNode>>,
}

impl ListNode {
    /// The records reachable through `next`, in traversal order.
    pub open spec fn tail_seq(next: Option<Box<ListNode>>) -> Seq<Telemetry>
        decreases next,
    {
        match next {
            None => Seq::empty(),
            Some(node) => seq![node.val] + Self::tail_seq(node.next),
        }
    }
}

impl View for ListNode {
    type V = Seq<Telemetry>;

    /// A chain is abstractly the sequence of its records, head first.
    open spec fn view(&self) -> Seq<Telemetry> {
        seq![self.val] + ListNode::tail_seq(self.next)
    }
}

impl ListNode {
    /// A leaf node: one record, no successor.
    pub fn new(val: Telemetry) -> (r: ListNode)
        ensures
            r.val == val,
            r.next is None,
            r@ == seq![val],
    {
        let r = ListNode { next: None, val };
        proof {
            assert(r@ =~= seq![val]);
        }
        r
    }

    /// Consumes both operands and returns a node carrying the record of
    /// `self` with `next` as its successor. Any previous tail of `self` is
    /// dropped; this is the only way to grow a chain, tail to head.
    pub fn with_next(self, next: ListNode) -> (r: ListNode)
        ensures
            r.val == self.val,
            r@ == seq![self.val] + next@,
    {
        ListNode { next: Some(Box::new(next)), val: self.val }
    }

    /// Extracts the part of the chain whose timestamps lie in the closed
    /// range `[from, to]`, consuming the chain.
    ///
    /// Returns `None` exactly when no record qualifies (in particular
    /// whenever `from > to`); otherwise a freshly built chain holding
    /// exactly the qualifying records, in the same relative order as the
    /// source.
    pub fn get_part(self, from: u64, to: u64) -> (r: Option<ListNode>)
        ensures
            (r is Some) <==> self@.filter(range_pred(from, to)).len() > 0,
            r matches Some(part) ==> part@ == self@.filter(range_pred(from, to)),
    {
        let picked = Self::collect_in_range(self, from, to);
        if picked.len() == 0 {
            None
        } else {
            Some(Self::build_chain(picked))
        }
    }

    /// The single scan over the source: walk the chain head to tail and
    /// copy every qualifying record, in encounter order, into a vector.
    fn collect_in_range(list: ListNode, from: u64, to: u64) -> (picked: Vec<Telemetry>)
        ensures
            picked@ == list@.filter(range_pred(from, to)),
    {
        let ghost full = list@;
        let ghost pred = range_pred(from, to);
        let mut picked: Vec<Telemetry> = Vec::new();
        let mut cur: Option<Box<ListNode>> = Some(Box::new(list));
        proof {
            assert(picked@ + Self::tail_seq(cur).filter(pred) =~= full.filter(pred));
        }
        while cur.is_some()
            invariant
                pred == range_pred(from, to),
                picked@ + Self::tail_seq(cur).filter(pred) == full.filter(pred),
            decreases Self::tail_seq(cur).len(),
        {
            let ghost rem = Self::tail_seq(cur);
            let ghost picked_before = picked@;
            let node = cur.unwrap();
            let ts = node.val.time_stamp;
            if from <= ts && ts <= to {
                picked.push(node.val);
            }
            cur = node.next;
            proof {
                Self::tail_seq(cur).lemma_filter_prepend(node.val, pred);
                assert(rem == seq![node.val] + Self::tail_seq(cur));
                assert(picked@ + Self::tail_seq(cur).filter(pred) =~= picked_before + rem.filter(pred));
            }
        }
        proof {
            Self::tail_seq(cur).lemma_filter_len(pred);
            assert(picked@ =~= picked@ + Self::tail_seq(cur).filter(pred));
        }
        picked
    }

    /// Rebuilds a chain from the collected records, tail to head, so that
    /// the chain's traversal order equals the vector's order.
    fn build_chain(picked: Vec<Telemetry>) -> (r: ListNode)
        requires
            picked@.len() > 0,
        ensures
            r@ == picked@,
    {
        let mut i: usize = picked.len() - 1;
        let mut acc = ListNode::new(picked[i]);
        proof {
            assert(acc@ =~= picked@.subrange(i as int, picked@.len() as int));
        }
        while i > 0
            invariant
                i < picked@.len(),
                acc@ == picked@.subrange(i as int, picked@.len() as int),
            decreases i,
        {
            i = i - 1;
            acc = ListNode::new(picked[i]).with_next(acc);
            proof {
                assert(acc@ =~= picked@.subrange(i as int, picked@.len() as int));
            }
        }
        proof {
            assert(picked@.subrange(0, picked@.len() as int) =~= picked@);
        }
        acc
    }
}

/// The number of records of `s` whose timestamps lie in `[from, to]`.
pub open spec fn qualifying_count(s: Seq<Telemetry>, from: u64, to: u64) -> nat
    decreases s.len(),
{
    if s.len() == 0 {
        0
    } else {
        qualifying_count(s.drop_last(), from, to) + (if in_range(s.last().time_stamp, from, to) {
            1nat
        } else {
            0nat
        })
    }
}

/// Empty-range law: a chain none of whose timestamps lies in `[from, to]`
/// selects nothing, so `get_part` returns absence on such a chain.
pub proof fn lemma_none_in_range_selects_none(s: Seq<Telemetry>, from: u64, to: u64)
    requires
        forall|i: int| 0 <= i < s.len() ==> !in_range(#[trigger] s[i].time_stamp, from, to),
    ensures
        s.filter(range_pred(from, to)).len() == 0,
{
    let p = range_pred(from, to);
    assert forall|i: int| 0 <= i < s.len() implies !(#[trigger] p(s[i])) by {
        assert(!in_range(s[i].time_stamp, from, to));
    }
    s.lemma_all_neg_filter_empty(p);
}

/// Inverted-bounds law: when `from > to` the predicate is unsatisfiable,
/// so the selection is empty whatever the chain holds.
pub proof fn lemma_inverted_bounds_select_none(s: Seq<Telemetry>, from: u64, to: u64)
    requires
        from > to,
    ensures
        s.filter(range_pred(from, to)).len() == 0,
{
    lemma_none_in_range_selects_none(s, from, to);
}

/// Full-range law: when every timestamp of the chain lies in `[from, to]`,
/// the selection is the whole chain, record for record in the same
/// head-to-tail order.
pub proof fn lemma_all_in_range_selects_all(s: Seq<Telemetry>, from: u64, to: u64)
    requires
        forall|i: int| 0 <= i < s.len() ==> in_range(#[trigger] s[i].time_stamp, from, to),
    ensures
        s.filter(range_pred(from, to)) == s,
    decreases s.len(),
{
    let p = range_pred(from, to);
    if s.len() == 0 {
        s.lemma_filter_len(p);
        assert(s.filter(p) =~= s);
    } else {
        let butlast = s.drop_last();
        assert(forall|i: int| 0 <= i < butlast.len() ==> butlast[i] == s[i]);
        lemma_all_in_range_selects_all(butlast, from, to);
        butlast.lemma_filter_push(s.last(), p);
        assert(s =~= butlast.push(s.last()));
        assert(p(s.last()));
        assert(s.filter(p) =~= s);
    }
}

/// Inclusive-boundary law: a record whose timestamp equals `from` or `to`
/// exactly is part of the selection.
pub proof fn lemma_boundary_timestamp_included(s: Seq<Telemetry>, from: u64, to: u64, i: int)
    requires
        0 <= i < s.len(),
        from <= to,
        s[i].time_stamp == from || s[i].time_stamp == to,
    ensures
        s.filter(range_pred(from, to)).contains(s[i]),
{
    let p = range_pred(from, to);
    assert(p(s[i]));
    s.lemma_filter_contains(p, i);
}

/// Sub-range law, first half: every record of the selection has a
/// timestamp in `[from, to]`.
pub proof fn lemma_selected_all_in_range(s: Seq<Telemetry>, from: u64, to: u64)
    ensures
        forall|j: int| 0 <= j < s.filter(range_pred(from, to)).len() ==> in_range(
            (#[trigger] s.filter(range_pred(from, to))[j]).time_stamp,
            from,
            to,
        ),
{
    let p = range_pred(from, to);
    assert forall|j: int| 0 <= j < s.filter(p).len() implies in_range(
        s.filter(p)[j].time_stamp,
        from,
        to,
    ) by {
        s.lemma_filter_pred(p, j);
    }
}

/// Sub-range law, second half: the selection has exactly as many records
/// as the chain has qualifying ones.
pub proof fn lemma_selected_len_is_qualifying_count(s: Seq<Telemetry>, from: u64, to: u64)
    ensures
        s.filter(range_pred(from, to)).len() == qualifying_count(s, from, to),
    decreases s.len(),
{
    let p = range_pred(from, to);
    if s.len() == 0 {
        s.lemma_filter_len(p);
    } else {
        let butlast = s.drop_last();
        lemma_selected_len_is_qualifying_count(butlast, from, to);
        butlast.lemma_filter_push(s.last(), p);
        assert(s =~= butlast.push(s.last()));
    }
}

} // verus!
