use vstd::prelude::*;
use vstd::string::*;

use crate::closure::fviews;
use crate::gnba::{Transitions, GNBA};
use crate::ltl_parser::Formula;
use crate::nba::NBA;
use crate::render::{
    atom_texts, atoms, dot_accepting, dot_edges, dot_nodes, dot_starts, escape_quotes, hoa_edges, hoa_head, hoa_label,
    ltl_text, min_len,
};
use crate::text::{concat_map, decimal, join_map};

verus! {

/// The pieces before piece `i` are no longer than those before piece `j` from `i` on.
proof fn lemma_concat_map_len_mono(f: spec_fn(int) -> Seq<char>, i: nat, j: nat)
    requires
        i <= j,
    ensures
        concat_map(i, f).len() <= concat_map(j, f).len(),
    decreases j,
{
    if i < j {
        lemma_concat_map_len_mono(f, i, (j - 1) as nat);
    }
}

/// Piece `i` of a concatenation stands right after the pieces before it.
proof fn lemma_concat_map_piece(f: spec_fn(int) -> Seq<char>, n: nat, i: nat)
    requires
        i < n,
    ensures
        concat_map(i, f).len() + f(i as int).len() <= concat_map(n, f).len(),
        concat_map(n, f).subrange(concat_map(i, f).len() as int, (concat_map(i, f).len() + f(i as int).len()) as int)
            == f(i as int),
    decreases n,
{
    let a = concat_map(i, f).len() as int;
    let b = a + f(i as int).len();
    if i == n - 1 {
        assert(concat_map(n, f) == concat_map(i, f) + f(i as int));
        assert(concat_map(n, f).subrange(a, b) =~= f(i as int));
    } else {
        lemma_concat_map_piece(f, (n - 1) as nat, i);
        let prev = concat_map((n - 1) as nat, f);
        assert(concat_map(n, f) == prev + f(n - 1));
        assert(concat_map(n, f).subrange(a, b) =~= prev.subrange(a, b));
    }
}

/// In the HOA text of an NBA, the block of state `i` begins with `State: ` and its number,
/// followed by ` {0}` and the line end when the state is accepting, and by the line end
/// alone when it is not; the block stands in the whole text.
pub proof fn lemma_nba_hoa_acceptance_marks(nba: NBA, i: int)
    requires
        0 <= i < nba.states@.len(),
    ensures
        ({
            let id = nba.states@[i].id;
            let head = "State: "@ + decimal(id as nat);
            &&& nba.acceptance_condition.states@.contains(id) ==> nba.hoa_state(i).take(head.len() + 5int) == head
                + " {0}\n"@
            &&& !nba.acceptance_condition.states@.contains(id) ==> nba.hoa_state(i).take(head.len() + 1int) == head
                + "\n"@
            &&& exists|off: int|
                0 <= off && off + nba.hoa_state(i).len() <= nba.hoa_text().len() && #[trigger] nba.hoa_text().subrange(
                    off,
                    off + nba.hoa_state(i).len(),
                ) == nba.hoa_state(i)
        }),
{
    let id = nba.states@[i].id;
    let head = "State: "@ + decimal(id as nat);
    let tail = "\n"@ + hoa_edges(nba.transitions@[id as int]);
    reveal_strlit(" {0}");
    reveal_strlit(" {0}\n");
    reveal_strlit("\n");
    if nba.acceptance_condition.states@.contains(id) {
        assert(nba.hoa_state(i) == head + " {0}"@ + tail);
        assert(nba.hoa_state(i).take(head.len() + 5int) =~= head + " {0}\n"@);
    } else {
        assert(nba.hoa_state(i) =~= head + tail);
        assert(nba.hoa_state(i).take(head.len() + 1int) =~= head + "\n"@);
    }
    let f = |k: int| nba.hoa_state(k);
    let n = nba.states@.len();
    lemma_concat_map_piece(f, n, i as nat);
    let pre = hoa_head(nba.states@.len(), nba.initial_states@, fviews(nba.closure@)) + "Acceptance: 1 Inf(0)\n"@
        + "properties: trans-labels explicit-labels state-acc\n"@ + "--BODY--\n"@;
    let body = concat_map(n, f);
    assert(nba.hoa_text() == pre + body + "--END--\n"@);
    let off: int = (pre.len() + concat_map(i as nat, f).len()) as int;
    assert(nba.hoa_text().subrange(off, (off + nba.hoa_state(i).len()) as int) =~= body.subrange(
        concat_map(i as nat, f).len() as int,
        (concat_map(i as nat, f).len() + f(i).len()) as int,
    ));
}

/// `Inf(0) & Inf(1) & ... & Inf(k - 1)`, for `k` at least one.
pub open spec fn inf_all(k: nat) -> Seq<char>
    decreases k,
{
    if k <= 1 {
        "Inf("@ + decimal(0) + ")"@
    } else {
        inf_all((k - 1) as nat) + " & "@ + "Inf("@ + decimal((k - 1) as nat) + ")"@
    }
}

/// The acceptance line in the HOA text of a GNBA asks that every acceptance set be visited
/// infinitely often: the conjunction of `Inf(i)` over its sets; a GNBA without sets gets the
/// one set `Inf(0)`.
pub proof fn lemma_gnba_hoa_acceptance(g: GNBA)
    ensures
        g.acceptance_conditions@.len() == 0 ==> g.hoa_acceptance() == "Acceptance: 1 Inf(0)\n"@,
        g.acceptance_conditions@.len() > 0 ==> g.hoa_acceptance() == "Acceptance: "@ + decimal(
            g.acceptance_conditions@.len(),
        ) + " "@ + inf_all(g.acceptance_conditions@.len()) + "\n"@,
{
    let k = g.acceptance_conditions@.len();
    if k > 0 {
        lemma_join_inf(k);
    }
}

proof fn lemma_join_inf(k: nat)
    requires
        k >= 1,
    ensures
        join_map(k, " & "@, |i: int| "Inf("@ + decimal(i as nat) + ")"@) == inf_all(k),
    decreases k,
{
    let f = |i: int| "Inf("@ + decimal(i as nat) + ")"@;
    let g = |i: int| if i == 0 { f(i) } else { " & "@ + f(i) };
    if k == 1 {
        assert(concat_map(1, g) == concat_map(0, g) + g(0));
        assert(concat_map(1, g) =~= f(0));
    } else {
        lemma_join_inf((k - 1) as nat);
        assert(concat_map(k, g) == concat_map((k - 1) as nat, g) + g(k - 1));
        assert(concat_map(k, g) =~= inf_all(k));
    }
}

/// In the HOA text of a GNBA with acceptance sets, the block of a state carries after its
/// number the sets that hold it: no mark when no set holds it, and otherwise ` {`, the numbers
/// of the sets that hold it separated by spaces, and `}`. The numbers listed are exactly the
/// sets that hold the state.
pub proof fn lemma_gnba_hoa_state_sets(g: GNBA, id: usize)
    requires
        g.acceptance_conditions@.len() > 0,
    ensures
        forall|c: int|
            0 <= c < g.acceptance_conditions@.len() ==> (#[trigger] g.acc_sets_of(id).contains(c as usize)
                <==> g.acceptance_conditions@[c].states@.contains(id)),
        forall|j: int|
            0 <= j < g.acc_sets_of(id).len() ==> #[trigger] g.acc_sets_of(id)[j] < g.acceptance_conditions@.len(),
        (forall|c: int| 0 <= c < g.acceptance_conditions@.len() ==> !g.acceptance_conditions@[c].states@.contains(id))
            ==> g.hoa_acc(id).len() == 0,
        (exists|c: int| 0 <= c < g.acceptance_conditions@.len() && g.acceptance_conditions@[c].states@.contains(id))
            ==> g.hoa_acc(id) == " {"@ + join_map(
            g.acc_sets_of(id).len(),
            " "@,
            |j: int| decimal(g.acc_sets_of(id)[j] as nat),
        ) + "}"@,
{
    let k = g.acceptance_conditions@.len();
    let p = |c: int| g.acceptance_conditions@[c].states@.contains(id);
    assert(g.acceptance_conditions.len() == k);
    crate::gnba::lemma_filter_ids(k, p);
    assert(g.acc_sets_of(id) == crate::gnba::filter_ids(k, p));
    assert forall|c: int| 0 <= c < k implies (#[trigger] g.acc_sets_of(id).contains(c as usize)
        <==> g.acceptance_conditions@[c].states@.contains(id)) by {
        assert(p(c) == g.acceptance_conditions@[c].states@.contains(id));
    }
    if exists|c: int| 0 <= c < k && g.acceptance_conditions@[c].states@.contains(id) {
        let c = choose|c: int| 0 <= c < k && g.acceptance_conditions@[c].states@.contains(id);
        assert(g.acc_sets_of(id).contains(c as usize));
        assert(g.acc_sets_of(id).len() > 0);
    } else {
        if g.acc_sets_of(id).len() > 0 {
            let c = g.acc_sets_of(id)[0];
            assert(p(c as int));
        }
    }
}

/// Atom `i` of a label as a literal: its number, negated where the label says false.
pub open spec fn label_literal(label: Seq<bool>, i: int) -> Seq<char> {
    if label[i] {
        decimal(i as nat)
    } else {
        "!"@ + decimal(i as nat)
    }
}

/// The literals of atoms `0..k` of a label, joined by ` & `, for `k` at least one.
pub open spec fn label_literals(label: Seq<bool>, k: nat) -> Seq<char>
    decreases k,
{
    if k <= 1 {
        label_literal(label, 0)
    } else {
        label_literals(label, (k - 1) as nat) + " & "@ + label_literal(label, k - 1)
    }
}

/// An edge label in HOA is the conjunction of one literal per atom, the atom negated exactly
/// where the label is false; an empty label is `[t]`.
pub proof fn lemma_hoa_label_literals(label: Seq<bool>)
    ensures
        label.len() == 0 ==> hoa_label(label) == "[t]"@,
        label.len() > 0 ==> hoa_label(label) == "["@ + label_literals(label, label.len()) + "]"@,
{
    if label.len() > 0 {
        lemma_join_literals(label, label.len());
    }
}

proof fn lemma_join_literals(label: Seq<bool>, k: nat)
    requires
        1 <= k <= label.len(),
    ensures
        join_map(
            k,
            " & "@,
            |i: int|
                if label[i] {
                    decimal(i as nat)
                } else {
                    "!"@ + decimal(i as nat)
                },
        ) == label_literals(label, k),
    decreases k,
{
    let f = |i: int|
        if label[i] {
            decimal(i as nat)
        } else {
            "!"@ + decimal(i as nat)
        };
    let g = |i: int| if i == 0 { f(i) } else { " & "@ + f(i) };
    if k == 1 {
        assert(concat_map(1, g) == concat_map(0, g) + g(0));
        assert(concat_map(1, g) =~= label_literals(label, 1));
    } else {
        lemma_join_literals(label, (k - 1) as nat);
        assert(concat_map(k, g) == concat_map((k - 1) as nat, g) + g(k - 1));
        assert(concat_map(k, g) =~= label_literals(label, k));
    }
}

/// The HOA lines of a state list each of its edges: two spaces, the edge's label, a space,
/// the number of the state it leads to, and the line end.
pub proof fn lemma_hoa_edges_listed(t: Transitions, k: int)
    requires
        0 <= k < t.transitions@.len(),
        k < t.label@.len(),
    ensures
        exists|off: int|
            0 <= off && #[trigger] hoa_edges(t).subrange(
                off,
                off + ("  "@ + hoa_label(t.label@[k]@) + " "@ + decimal(t.transitions@[k] as nat) + "\n"@).len(),
            ) == "  "@ + hoa_label(t.label@[k]@) + " "@ + decimal(t.transitions@[k] as nat) + "\n"@,
{
    let f = |j: int| "  "@ + hoa_label(t.label@[j]@) + " "@ + decimal(t.transitions@[j] as nat) + "\n"@;
    let n = min_len(t.transitions@.len(), t.label@.len());
    lemma_concat_map_piece(f, n, k as nat);
    let off = concat_map(k as nat, f).len() as int;
    assert(hoa_edges(t) == concat_map(n, f));
    assert(hoa_edges(t).subrange(off, off + f(k).len()) == f(k));
}

/// The HOA header opens with the version and the number of states, and lists each initial
/// state on a `Start:` line.
pub proof fn lemma_hoa_head_starts(n: nat, init: Seq<usize>, cl: Seq<Formula>, k: int)
    requires
        0 <= k < init.len(),
    ensures
        hoa_head(n, init, cl).take(("HOA: v1\n"@ + "States: "@ + decimal(n) + "\n"@).len() as int) == "HOA: v1\n"@
            + "States: "@ + decimal(n) + "\n"@,
        exists|off: int|
            0 <= off && #[trigger] hoa_head(n, init, cl).subrange(
                off,
                off + ("Start: "@ + decimal(init[k] as nat) + "\n"@).len(),
            ) == "Start: "@ + decimal(init[k] as nat) + "\n"@,
{
    let pre = "HOA: v1\n"@ + "States: "@ + decimal(n) + "\n"@;
    let f = |i: int| "Start: "@ + decimal(init[i] as nat) + "\n"@;
    let aps = atoms(cl);
    let post = "AP: "@ + decimal(aps.len()) + " "@ + concat_map(
        aps.len(),
        |i: int| "\""@ + escape_quotes(ltl_text(aps[i])) + "\" "@,
    ) + "\n"@;
    assert(hoa_head(n, init, cl) == pre + concat_map(init.len(), f) + post);
    assert(hoa_head(n, init, cl).take(pre.len() as int) =~= pre);
    lemma_concat_map_piece(f, init.len(), k as nat);
    let off = pre.len() + concat_map(k as nat, f).len();
    assert(hoa_head(n, init, cl).subrange(off as int, (off + f(k).len()) as int) =~= concat_map(init.len(), f).subrange(
        concat_map(k as nat, f).len() as int,
        (concat_map(k as nat, f).len() + f(k).len()) as int,
    ));
}

/// Text that holds `x` somewhere.
pub open spec fn holds_text(t: Seq<char>, x: Seq<char>) -> bool {
    exists|off: int| 0 <= off && off + x.len() <= t.len() && #[trigger] t.subrange(off, off + x.len()) == x
}

/// A piece of a concatenation stands in any text built around the concatenation.
proof fn lemma_piece_in(pre: Seq<char>, f: spec_fn(int) -> Seq<char>, n: nat, post: Seq<char>, i: nat)
    requires
        i < n,
    ensures
        holds_text(pre + concat_map(n, f) + post, f(i as int)),
{
    lemma_concat_map_piece(f, n, i);
    let c = concat_map(n, f);
    let a = concat_map(i, f).len() as int;
    let off = pre.len() + a;
    let t = pre + c + post;
    assert(t.subrange(off, off + f(i as int).len()) =~= c.subrange(a, a + f(i as int).len()));
}

/// The DOT text of an NBA draws every accepting state with a double border, draws an arrow
/// from the start point to every initial state, and draws every edge from state `f` with its
/// target.
pub proof fn lemma_nba_dot_marks(nba: NBA, k: int)
    ensures
        0 <= k < nba.acceptance_condition.states@.len() ==> holds_text(
            nba.dot_text(),
            "  "@ + decimal(nba.acceptance_condition.states@[k] as nat) + " [peripheries=2];\n"@,
        ),
        0 <= k < nba.initial_states@.len() ==> holds_text(
            nba.dot_text(),
            "  start -> "@ + decimal(nba.initial_states@[k] as nat) + ";\n"@,
        ),
{
    let names = atom_texts(fviews(nba.closure@));
    let head = "digraph NBA {\n"@ + "  rankdir=LR;\n"@ + "  node [shape=circle];\n"@ + "  start [shape=point];\n"@;
    let acc = nba.acceptance_condition.states@;
    let init = nba.initial_states@;
    let fa = |i: int| "  "@ + decimal(acc[i] as nat) + " [peripheries=2];\n"@;
    let fs = |i: int| "  start -> "@ + decimal(init[i] as nat) + ";\n"@;
    if 0 <= k < acc.len() {
        let pre = head + dot_starts(init) + dot_nodes(nba.states@) + dot_edges(nba.transitions@, names);
        assert(nba.dot_text() == pre + concat_map(acc.len(), fa) + "}\n"@);
        lemma_piece_in(pre, fa, acc.len(), "}\n"@, k as nat);
    }
    if 0 <= k < init.len() {
        let post = dot_nodes(nba.states@) + dot_edges(nba.transitions@, names) + dot_accepting(acc) + "}\n"@;
        assert(nba.dot_text() =~= head + concat_map(init.len(), fs) + post);
        lemma_piece_in(head, fs, init.len(), post, k as nat);
    }
}

/// The DOT text of a GNBA draws every state of every acceptance set with a double border.
pub proof fn lemma_gnba_dot_marks(g: GNBA, c: int, k: int)
    requires
        0 <= c < g.acceptance_conditions@.len(),
        0 <= k < g.acceptance_conditions@[c].states@.len(),
    ensures
        holds_text(
            g.dot_text(),
            "  "@ + decimal(g.acceptance_conditions@[c].states@[k] as nat) + " [peripheries=2];\n"@,
        ),
{
    let names = atom_texts(g.closure_view());
    let pre = "digraph GNBA {\n"@ + "  rankdir=LR;\n"@ + "  start [shape=point];\n"@ + dot_nodes(g.states@)
        + dot_starts(g.initial_states@) + dot_edges(g.transitions@, names);
    let fc = |c: int| dot_accepting(g.acceptance_conditions@[c].states@);
    let sts = g.acceptance_conditions@[c].states@;
    let fa = |i: int| "  "@ + decimal(sts[i] as nat) + " [peripheries=2];\n"@;
    let line = fa(k);
    assert(g.dot_text() == pre + concat_map(g.acceptance_conditions@.len(), fc) + "}\n"@);
    lemma_piece_in(pre, fc, g.acceptance_conditions@.len(), "}\n"@, c as nat);
    let whole = g.dot_text();
    let part = fc(c);
    let o1 = choose|off: int| 0 <= off && off + part.len() <= whole.len() && #[trigger] whole.subrange(off, off + part.len()) == part;
    assert(part == seq![] + concat_map(sts.len(), fa) + seq![]) by {
        assert(part =~= seq![] + concat_map(sts.len(), fa) + seq![]);
    }
    lemma_piece_in(seq![], fa, sts.len(), seq![], k as nat);
    let o2 = choose|off: int| 0 <= off && off + line.len() <= part.len() && #[trigger] part.subrange(off, off + line.len()) == line;
    assert(whole.subrange(o1 + o2, o1 + o2 + line.len()) =~= part.subrange(o2, o2 + line.len()));
}

/// The HOA text of a GNBA holds the block of each of its states.
pub proof fn lemma_gnba_hoa_blocks(g: GNBA, i: int)
    requires
        0 <= i < g.states@.len(),
    ensures
        holds_text(g.hoa_text(), g.hoa_state(i)),
{
    let f = |k: int| g.hoa_state(k);
    let pre = hoa_head(g.states@.len(), g.initial_states@, g.closure_view()) + g.hoa_acceptance()
        + "properties: trans-labels explicit-labels state-acc\n"@ + "--BODY--\n"@;
    assert(g.hoa_text() == pre + concat_map(g.states@.len(), f) + "--END--\n"@);
    lemma_piece_in(pre, f, g.states@.len(), "--END--\n"@, i as nat);
}

} // verus!
