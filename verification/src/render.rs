use vstd::prelude::*;
use vstd::string::*;

use crate::closure::fviews;
use crate::gnba::{is_label_atom, AcceptanceCondition, State, Transitions, GNBA};
use crate::ltl_parser::{lemma_view_variant, spec_size, Formula, LTL};
use crate::nba::NBA;
use crate::text::{concat_map, decimal, join_map, push_decimal, push_text};

verus! {

/// A formula as text: names bare, operators between their operands in parentheses, unary
/// temporal operators in front with a space.
pub open spec fn ltl_text(f: Formula) -> Seq<char>
    decreases f,
{
    match f {
        Formula::True => "true"@,
        Formula::False => "false"@,
        Formula::Var(name) => name,
        Formula::Not(a) => "!("@ + ltl_text(*a) + ")"@,
        Formula::And(a, b) => "("@ + ltl_text(*a) + " & "@ + ltl_text(*b) + ")"@,
        Formula::Or(a, b) => "("@ + ltl_text(*a) + " | "@ + ltl_text(*b) + ")"@,
        Formula::Implies(a, b) => "("@ + ltl_text(*a) + " -> "@ + ltl_text(*b) + ")"@,
        Formula::LessEqual(a, b) => "("@ + ltl_text(*a) + " <= "@ + ltl_text(*b) + ")"@,
        Formula::GreaterEqual(a, b) => "("@ + ltl_text(*a) + " >= "@ + ltl_text(*b) + ")"@,
        Formula::Greater(a, b) => "("@ + ltl_text(*a) + " > "@ + ltl_text(*b) + ")"@,
        Formula::Less(a, b) => "("@ + ltl_text(*a) + " < "@ + ltl_text(*b) + ")"@,
        Formula::TokenCount(name) => "#tokens(\""@ + name + "\")"@,
        Formula::Fireable(name) => "\""@ + name + "\"?"@,
        Formula::Number(n) => decimal(n as nat),
        Formula::Next(a) => "X "@ + ltl_text(*a),
        Formula::Eventually(a) => "F "@ + ltl_text(*a),
        Formula::Globally(a) => "G "@ + ltl_text(*a),
        Formula::AllPaths(a) => "A "@ + ltl_text(*a),
        Formula::SomePath(a) => "E "@ + ltl_text(*a),
        Formula::Until(a, b) => "("@ + ltl_text(*a) + " U "@ + ltl_text(*b) + ")"@,
        Formula::WeakUntil(a, b) => "("@ + ltl_text(*a) + " W "@ + ltl_text(*b) + ")"@,
        Formula::Release(a, b) => "("@ + ltl_text(*a) + " R "@ + ltl_text(*b) + ")"@,
        Formula::MightyRelease(a, b) => "("@ + ltl_text(*a) + " M "@ + ltl_text(*b) + ")"@,
    }
}

fn push_binary(out: &mut String, a: &LTL, op: &str, b: &LTL)
    ensures
        final(out)@ == old(out)@ + ("("@ + ltl_text(a@) + op@ + ltl_text(b@) + ")"@),
    decreases spec_size(a@) + spec_size(b@) + 1, 0nat,
{
    push_text(out, "(");
    push_ltl(out, a);
    push_text(out, op);
    push_ltl(out, b);
    push_text(out, ")");
    assert(final(out)@ =~= old(out)@ + ("("@ + ltl_text(a@) + op@ + ltl_text(b@) + ")"@));
}

fn push_prefixed(out: &mut String, op: &str, a: &LTL)
    ensures
        final(out)@ == old(out)@ + (op@ + ltl_text(a@)),
    decreases spec_size(a@) + 1, 0nat,
{
    push_text(out, op);
    push_ltl(out, a);
    assert(final(out)@ =~= old(out)@ + (op@ + ltl_text(a@)));
}

/// Appends a formula as text.
pub fn push_ltl(out: &mut String, f: &LTL)
    ensures
        final(out)@ == old(out)@ + ltl_text(f@),
    decreases spec_size(f@), 1nat,
{
    proof {
        lemma_view_variant(*f);
    }
    match f {
        LTL::True => push_text(out, "true"),
        LTL::False => push_text(out, "false"),
        LTL::Var(name) => push_text(out, name.as_str()),
        LTL::Not(a) => {
            push_text(out, "!(");
            push_ltl(out, a);
            push_text(out, ")");
            assert(final(out)@ =~= old(out)@ + ltl_text(f@));
        },
        LTL::And(a, b) => push_binary(out, a, " & ", b),
        LTL::Or(a, b) => push_binary(out, a, " | ", b),
        LTL::Implies(a, b) => push_binary(out, a, " -> ", b),
        LTL::LessEqual(a, b) => push_binary(out, a, " <= ", b),
        LTL::GreaterEqual(a, b) => push_binary(out, a, " >= ", b),
        LTL::Greater(a, b) => push_binary(out, a, " > ", b),
        LTL::Less(a, b) => push_binary(out, a, " < ", b),
        LTL::TokenCount(name) => {
            push_text(out, "#tokens(\"");
            push_text(out, name.as_str());
            push_text(out, "\")");
            assert(final(out)@ =~= old(out)@ + ltl_text(f@));
        },
        LTL::Fireable(name) => {
            push_text(out, "\"");
            push_text(out, name.as_str());
            push_text(out, "\"?");
            assert(final(out)@ =~= old(out)@ + ltl_text(f@));
        },
        LTL::Number(n) => push_decimal(out, *n as u64),
        LTL::Next(a) => push_prefixed(out, "X ", a),
        LTL::Eventually(a) => push_prefixed(out, "F ", a),
        LTL::Globally(a) => push_prefixed(out, "G ", a),
        LTL::AllPaths(a) => push_prefixed(out, "A ", a),
        LTL::SomePath(a) => push_prefixed(out, "E ", a),
        LTL::Until(a, b) => push_binary(out, a, " U ", b),
        LTL::WeakUntil(a, b) => push_binary(out, a, " W ", b),
        LTL::Release(a, b) => push_binary(out, a, " R ", b),
        LTL::MightyRelease(a, b) => push_binary(out, a, " M ", b),
    }
}

impl LTL {
    /// The formula as text.
    pub fn to_text(&self) -> (r: String)
        ensures
            r@ == ltl_text(self@),
    {
        let mut out = String::new();
        push_ltl(&mut out, self);
        out
    }
}

/// Each double quote preceded by a backslash.
pub open spec fn escape_quotes(s: Seq<char>) -> Seq<char>
    decreases s.len(),
{
    if s.len() == 0 {
        seq![]
    } else {
        escape_quotes(s.drop_last()) + if s.last() == '"' {
            "\\\""@
        } else {
            seq![s.last()]
        }
    }
}

/// Appends a text with each double quote preceded by a backslash.
pub fn push_escaped(out: &mut String, s: &str)
    ensures
        final(out)@ == old(out)@ + escape_quotes(s@),
{
    let n = s.unicode_len();
    let mut i: usize = 0;
    while i < n
        invariant
            n == s@.len(),
            i <= n,
            out@ == old(out)@ + escape_quotes(s@.take(i as int)),
        decreases n - i,
    {
        let c = s.get_char(i);
        let ghost before = out@;
        if c == '"' {
            push_text(out, "\\\"");
        } else {
            push_text(out, s.substring_char(i, i + 1));
            assert(s@.subrange(i as int, i + 1) =~= seq![c]);
        }
        proof {
            assert(s@.take(i + 1).drop_last() =~= s@.take(i as int));
            assert(s@.take(i + 1).last() == c);
        }
        assert(out@ =~= old(out)@ + escape_quotes(s@.take(i + 1)));
        i = i + 1;
    }
    assert(s@.take(n as int) =~= s@);
}

/// The texts of the label atoms of a closure, in order.
pub open spec fn atom_texts(cl: Seq<Formula>) -> Seq<Seq<char>>
    decreases cl.len(),
{
    if cl.len() == 0 {
        seq![]
    } else {
        let p = atom_texts(cl.drop_last());
        if is_label_atom(cl.last()) {
            p.push(ltl_text(cl.last()))
        } else {
            p
        }
    }
}

/// The names whose entry in the label is true, among the first `n`.
pub open spec fn picked(names: Seq<Seq<char>>, label: Seq<bool>, n: nat) -> Seq<Seq<char>>
    decreases n,
{
    if n == 0 {
        seq![]
    } else {
        let p = picked(names, label, (n - 1) as nat);
        if label[n - 1] {
            p.push(names[n - 1])
        } else {
            p
        }
    }
}

/// The texts joined by `sep`.
pub open spec fn join_texts(items: Seq<Seq<char>>, sep: Seq<char>) -> Seq<char>
    decreases items.len(),
{
    if items.len() == 0 {
        seq![]
    } else if items.len() == 1 {
        items[0]
    } else {
        join_texts(items.drop_last(), sep) + sep + items.last()
    }
}

pub open spec fn min_len(a: nat, b: nat) -> nat {
    if a <= b {
        a
    } else {
        b
    }
}

/// The label of an edge in DOT: the names of the true atoms, comma separated, quotes escaped.
pub open spec fn dot_label(names: Seq<Seq<char>>, label: Seq<bool>) -> Seq<char> {
    escape_quotes(join_texts(picked(names, label, min_len(names.len(), label.len())), ","@))
}

/// The DOT lines of the edges of one state.
pub open spec fn dot_edges_of(from: int, t: Transitions, names: Seq<Seq<char>>) -> Seq<char> {
    concat_map(
        min_len(t.transitions@.len(), t.label@.len()),
        |k: int|
            "  "@ + decimal(from as nat) + " -> "@ + decimal(t.transitions@[k] as nat) + " [label=\""@
                + dot_label(names, t.label@[k]@) + "\"];\n"@,
    )
}

/// The DOT lines of all edges.
pub open spec fn dot_edges(ts: Seq<Transitions>, names: Seq<Seq<char>>) -> Seq<char> {
    concat_map(ts.len(), |f: int| dot_edges_of(f, ts[f], names))
}

/// The DOT lines that name each state by its number.
pub open spec fn dot_nodes(states: Seq<State>) -> Seq<char> {
    concat_map(
        states.len(),
        |i: int| "  "@ + decimal(states[i].id as nat) + " [label=\""@ + decimal(states[i].id as nat) + "\"];\n"@,
    )
}

/// The DOT lines from the start point to the initial states.
pub open spec fn dot_starts(init: Seq<usize>) -> Seq<char> {
    concat_map(init.len(), |i: int| "  start -> "@ + decimal(init[i] as nat) + ";\n"@)
}

/// The DOT lines that draw states with a double border.
pub open spec fn dot_accepting(states: Seq<usize>) -> Seq<char> {
    concat_map(states.len(), |i: int| "  "@ + decimal(states[i] as nat) + " [peripheries=2];\n"@)
}

fn push_atom_names(closure: &Vec<LTL>) -> (r: Vec<String>)
    ensures
        r@.map_values(|s: String| s@) == atom_texts(fviews(closure@)),
{
    let mut names: Vec<String> = Vec::new();
    let mut i: usize = 0;
    while i < closure.len()
        invariant
            i <= closure@.len(),
            names@.map_values(|s: String| s@) == atom_texts(fviews(closure@).take(i as int)),
        decreases closure.len() - i,
    {
        let f = &closure[i];
        proof {
            lemma_view_variant(*f);
            assert(fviews(closure@).take(i + 1).drop_last() =~= fviews(closure@).take(i as int));
            assert(fviews(closure@).take(i + 1).last() == f@);
        }
        let ghost before = names@.map_values(|s: String| s@);
        match f {
            LTL::Var(_) | LTL::TokenCount(_) | LTL::Fireable(_) | LTL::LessEqual(_, _)
            | LTL::GreaterEqual(_, _) | LTL::Greater(_, _) | LTL::Less(_, _) => {
                names.push(f.to_text());
                assert(names@.map_values(|s: String| s@) =~= before.push(ltl_text(f@)));
            },
            _ => {},
        }
        i = i + 1;
    }
    assert(fviews(closure@).take(closure@.len() as int) =~= fviews(closure@));
    names
}

fn push_dot_label(out: &mut String, names: &Vec<String>, label: &Vec<bool>)
    ensures
        final(out)@ == old(out)@ + dot_label(names@.map_values(|s: String| s@), label@),
{
    let ghost nv = names@.map_values(|s: String| s@);
    let n = if names.len() <= label.len() {
        names.len()
    } else {
        label.len()
    };
    let mut joined = String::new();
    let mut any = false;
    let mut i: usize = 0;
    while i < n
        invariant
            nv == names@.map_values(|s: String| s@),
            n == min_len(names@.len(), label@.len()),
            i <= n,
            joined@ == join_texts(picked(nv, label@, i as nat), ","@),
            any == (picked(nv, label@, i as nat).len() > 0),
        decreases n - i,
    {
        if label[i] {
            let ghost p = picked(nv, label@, i as nat);
            if any {
                push_text(&mut joined, ",");
            }
            push_text(&mut joined, names[i].as_str());
            proof {
                assert(picked(nv, label@, (i + 1) as nat) == p.push(nv[i as int]));
                assert(p.push(nv[i as int]).drop_last() =~= p);
                if p.len() == 0 {
                    assert(p.push(nv[i as int]) =~= seq![nv[i as int]]);
                }
            }
            any = true;
        }
        i = i + 1;
    }
    push_escaped(out, joined.as_str());
}

fn push_edges(out: &mut String, transitions: &Vec<Transitions>, names: &Vec<String>)
    ensures
        final(out)@ == old(out)@ + dot_edges(transitions@, names@.map_values(|s: String| s@)),
{
    let ghost nv = names@.map_values(|s: String| s@);
    let ghost ff = |f: int| dot_edges_of(f, transitions@[f], nv);
    let mut from: usize = 0;
    while from < transitions.len()
        invariant
            nv == names@.map_values(|s: String| s@),
            ff == (|f: int| dot_edges_of(f, transitions@[f], nv)),
            from <= transitions@.len(),
            out@ == old(out)@ + concat_map(from as nat, ff),
        decreases transitions.len() - from,
    {
        let entry = &transitions[from];
        let m = if entry.transitions.len() <= entry.label.len() {
            entry.transitions.len()
        } else {
            entry.label.len()
        };
        let ghost fk = |k: int|
            "  "@ + decimal(from as nat) + " -> "@ + decimal(entry.transitions@[k] as nat) + " [label=\""@
                + dot_label(nv, entry.label@[k]@) + "\"];\n"@;
        let ghost start = out@;
        let mut k: usize = 0;
        while k < m
            invariant
                nv == names@.map_values(|s: String| s@),
                m == min_len(entry.transitions@.len(), entry.label@.len()),
                k <= m,
                fk == (|k: int|
                    "  "@ + decimal(from as nat) + " -> "@ + decimal(entry.transitions@[k] as nat)
                        + " [label=\""@ + dot_label(nv, entry.label@[k]@) + "\"];\n"@),
                out@ == start + concat_map(k as nat, fk),
            decreases m - k,
        {
            let ghost before = out@;
            push_text(out, "  ");
            push_decimal(out, from as u64);
            push_text(out, " -> ");
            push_decimal(out, entry.transitions[k] as u64);
            push_text(out, " [label=\"");
            push_dot_label(out, names, &entry.label[k]);
            push_text(out, "\"];\n");
            assert(out@ =~= before + fk(k as int));
            k = k + 1;
        }
        assert(concat_map(m as nat, fk) == dot_edges_of(from as int, *entry, nv));
        assert(out@ =~= old(out)@ + concat_map((from + 1) as nat, ff));
        from = from + 1;
    }
}

fn push_nodes(out: &mut String, states: &Vec<State>)
    ensures
        final(out)@ == old(out)@ + dot_nodes(states@),
{
    let ghost f = |i: int| "  "@ + decimal(states@[i].id as nat) + " [label=\""@ + decimal(states@[i].id as nat) + "\"];\n"@;
    let mut i: usize = 0;
    while i < states.len()
        invariant
            i <= states@.len(),
            f == (|i: int| "  "@ + decimal(states@[i].id as nat) + " [label=\""@ + decimal(states@[i].id as nat) + "\"];\n"@),
            out@ == old(out)@ + concat_map(i as nat, f),
        decreases states.len() - i,
    {
        let ghost before = out@;
        push_text(out, "  ");
        push_decimal(out, states[i].id as u64);
        push_text(out, " [label=\"");
        push_decimal(out, states[i].id as u64);
        push_text(out, "\"];\n");
        assert(out@ =~= before + f(i as int));
        i = i + 1;
    }
}

fn push_starts(out: &mut String, init: &Vec<usize>)
    ensures
        final(out)@ == old(out)@ + dot_starts(init@),
{
    let ghost f = |i: int| "  start -> "@ + decimal(init@[i] as nat) + ";\n"@;
    let mut i: usize = 0;
    while i < init.len()
        invariant
            i <= init@.len(),
            f == (|i: int| "  start -> "@ + decimal(init@[i] as nat) + ";\n"@),
            out@ == old(out)@ + concat_map(i as nat, f),
        decreases init.len() - i,
    {
        let ghost before = out@;
        push_text(out, "  start -> ");
        push_decimal(out, init[i] as u64);
        push_text(out, ";\n");
        assert(out@ =~= before + f(i as int));
        i = i + 1;
    }
}

fn push_accepting(out: &mut String, states: &Vec<usize>)
    ensures
        final(out)@ == old(out)@ + dot_accepting(states@),
{
    let ghost f = |i: int| "  "@ + decimal(states@[i] as nat) + " [peripheries=2];\n"@;
    let mut i: usize = 0;
    while i < states.len()
        invariant
            i <= states@.len(),
            f == (|i: int| "  "@ + decimal(states@[i] as nat) + " [peripheries=2];\n"@),
            out@ == old(out)@ + concat_map(i as nat, f),
        decreases states.len() - i,
    {
        let ghost before = out@;
        push_text(out, "  ");
        push_decimal(out, states[i] as u64);
        push_text(out, " [peripheries=2];\n");
        assert(out@ =~= before + f(i as int));
        i = i + 1;
    }
}

impl GNBA {
    /// The automaton in DOT.
    pub open spec fn dot_text(&self) -> Seq<char> {
        let names = atom_texts(self.closure_view());
        "digraph GNBA {\n"@ + "  rankdir=LR;\n"@ + "  start [shape=point];\n"@ + dot_nodes(self.states@)
            + dot_starts(self.initial_states@) + dot_edges(self.transitions@, names) + concat_map(
            self.acceptance_conditions@.len(),
            |c: int| dot_accepting(self.acceptance_conditions@[c].states@),
        ) + "}\n"@
    }

    /// The automaton in DOT: states by number, edges labelled with their true atoms, states of
    /// acceptance sets with a double border.
    pub fn to_dot(&self) -> (r: String)
        ensures
            r@ == self.dot_text(),
    {
        let atomic_names = push_atom_names(&self.closure);
        let mut s = String::new();
        push_text(&mut s, "digraph GNBA {\n");
        push_text(&mut s, "  rankdir=LR;\n");
        push_text(&mut s, "  start [shape=point];\n");
        push_nodes(&mut s, &self.states);
        push_starts(&mut s, &self.initial_states);
        push_edges(&mut s, &self.transitions, &atomic_names);
        let ghost head = s@;
        let ghost f = |c: int| dot_accepting(self.acceptance_conditions@[c].states@);
        let mut c: usize = 0;
        while c < self.acceptance_conditions.len()
            invariant
                c <= self.acceptance_conditions@.len(),
                f == (|c: int| dot_accepting(self.acceptance_conditions@[c].states@)),
                s@ == head + concat_map(c as nat, f),
            decreases self.acceptance_conditions.len() - c,
        {
            let ghost before = s@;
            push_accepting(&mut s, &self.acceptance_conditions[c].states);
            assert(s@ =~= before + f(c as int));
            c = c + 1;
        }
        push_text(&mut s, "}\n");
        assert(s@ =~= self.dot_text());
        s
    }
}

impl NBA {
    /// The automaton in DOT.
    pub open spec fn dot_text(&self) -> Seq<char> {
        let names = atom_texts(fviews(self.closure@));
        "digraph NBA {\n"@ + "  rankdir=LR;\n"@ + "  node [shape=circle];\n"@ + "  start [shape=point];\n"@
            + dot_starts(self.initial_states@) + dot_nodes(self.states@) + dot_edges(self.transitions@, names)
            + dot_accepting(self.acceptance_condition.states@) + "}\n"@
    }

    /// The automaton in DOT: states by number, edges labelled with their true atoms, accepting
    /// states with a double border.
    pub fn to_dot(&self) -> (r: String)
        ensures
            r@ == self.dot_text(),
    {
        let atomic_names = push_atom_names(&self.closure);
        let mut s = String::new();
        push_text(&mut s, "digraph NBA {\n");
        push_text(&mut s, "  rankdir=LR;\n");
        push_text(&mut s, "  node [shape=circle];\n");
        push_text(&mut s, "  start [shape=point];\n");
        push_starts(&mut s, &self.initial_states);
        push_nodes(&mut s, &self.states);
        push_edges(&mut s, &self.transitions, &atomic_names);
        push_accepting(&mut s, &self.acceptance_condition.states);
        push_text(&mut s, "}\n");
        assert(s@ =~= self.dot_text());
        s
    }
}

/// The atoms of a closure, in order.
pub open spec fn atoms(cl: Seq<Formula>) -> Seq<Formula>
    decreases cl.len(),
{
    if cl.len() == 0 {
        seq![]
    } else {
        let p = atoms(cl.drop_last());
        if is_label_atom(cl.last()) {
            p.push(cl.last())
        } else {
            p
        }
    }
}

/// The HOA header lines up to the atomic propositions.
pub open spec fn hoa_head(n: nat, init: Seq<usize>, cl: Seq<Formula>) -> Seq<char> {
    let aps = atoms(cl);
    "HOA: v1\n"@ + "States: "@ + decimal(n) + "\n"@ + concat_map(
        init.len(),
        |i: int| "Start: "@ + decimal(init[i] as nat) + "\n"@,
    ) + "AP: "@ + decimal(aps.len()) + " "@ + concat_map(
        aps.len(),
        |i: int| "\""@ + escape_quotes(ltl_text(aps[i])) + "\" "@,
    ) + "\n"@
}

/// A label in HOA: each atom by number, negated where false, joined by `&`; `[t]` when empty.
pub open spec fn hoa_label(label: Seq<bool>) -> Seq<char> {
    if label.len() == 0 {
        "[t]"@
    } else {
        "["@ + join_map(
            label.len(),
            " & "@,
            |i: int|
                if label[i] {
                    decimal(i as nat)
                } else {
                    "!"@ + decimal(i as nat)
                },
        ) + "]"@
    }
}

/// The HOA lines of the edges of one state.
pub open spec fn hoa_edges(t: Transitions) -> Seq<char> {
    concat_map(
        min_len(t.transitions@.len(), t.label@.len()),
        |k: int| "  "@ + hoa_label(t.label@[k]@) + " "@ + decimal(t.transitions@[k] as nat) + "\n"@,
    )
}

fn push_hoa_head(out: &mut String, n: usize, init: &Vec<usize>, closure: &Vec<LTL>)
    ensures
        final(out)@ == old(out)@ + hoa_head(n as nat, init@, fviews(closure@)),
{
    push_text(out, "HOA: v1\n");
    push_text(out, "States: ");
    push_decimal(out, n as u64);
    push_text(out, "\n");
    let ghost h1 = out@;
    let ghost fs = |i: int| "Start: "@ + decimal(init@[i] as nat) + "\n"@;
    let mut i: usize = 0;
    while i < init.len()
        invariant
            i <= init@.len(),
            fs == (|i: int| "Start: "@ + decimal(init@[i] as nat) + "\n"@),
            out@ == h1 + concat_map(i as nat, fs),
        decreases init.len() - i,
    {
        let ghost before = out@;
        push_text(out, "Start: ");
        push_decimal(out, init[i] as u64);
        push_text(out, "\n");
        assert(out@ =~= before + fs(i as int));
        i = i + 1;
    }
    let aps = atom_list(closure);
    let ghost av = fviews(aps@);
    push_text(out, "AP: ");
    push_decimal(out, aps.len() as u64);
    push_text(out, " ");
    let ghost h2 = out@;
    let ghost fa = |i: int| "\""@ + escape_quotes(ltl_text(av[i])) + "\" "@;
    let mut i: usize = 0;
    while i < aps.len()
        invariant
            i <= aps@.len(),
            av == fviews(aps@),
            fa == (|i: int| "\""@ + escape_quotes(ltl_text(av[i])) + "\" "@),
            out@ == h2 + concat_map(i as nat, fa),
        decreases aps.len() - i,
    {
        let ghost before = out@;
        let name = aps[i].to_text();
        push_text(out, "\"");
        push_escaped(out, name.as_str());
        push_text(out, "\" ");
        assert(out@ =~= before + fa(i as int));
        i = i + 1;
    }
    push_text(out, "\n");
    assert(out@ =~= old(out)@ + hoa_head(n as nat, init@, fviews(closure@)));
}

/// The label atoms of a closure, in order.
fn atom_list(closure: &Vec<LTL>) -> (r: Vec<LTL>)
    ensures
        fviews(r@) == atoms(fviews(closure@)),
{
    let mut out: Vec<LTL> = Vec::new();
    let mut i: usize = 0;
    while i < closure.len()
        invariant
            i <= closure@.len(),
            fviews(out@) == atoms(fviews(closure@).take(i as int)),
        decreases closure.len() - i,
    {
        let f = &closure[i];
        proof {
            lemma_view_variant(*f);
            assert(fviews(closure@).take(i + 1).drop_last() =~= fviews(closure@).take(i as int));
            assert(fviews(closure@).take(i + 1).last() == f@);
        }
        let ghost before = fviews(out@);
        match f {
            LTL::Var(_) | LTL::TokenCount(_) | LTL::Fireable(_) | LTL::LessEqual(_, _)
            | LTL::GreaterEqual(_, _) | LTL::Greater(_, _) | LTL::Less(_, _) => {
                out.push(crate::ltl_parser::ltl_copy(f));
                assert(fviews(out@) =~= before.push(f@));
            },
            _ => {},
        }
        i = i + 1;
    }
    assert(fviews(closure@).take(closure@.len() as int) =~= fviews(closure@));
    out
}

fn push_hoa_label(out: &mut String, label: &Vec<bool>)
    ensures
        final(out)@ == old(out)@ + hoa_label(label@),
{
    if label.len() == 0 {
        push_text(out, "[t]");
        return;
    }
    push_text(out, "[");
    let ghost h = out@;
    let ghost f = |i: int| if label@[i] { decimal(i as nat) } else { "!"@ + decimal(i as nat) };
    let ghost g = |i: int| if i == 0 { f(i) } else { " & "@ + f(i) };
    let mut i: usize = 0;
    while i < label.len()
        invariant
            i <= label@.len(),
            f == (|i: int| if label@[i] { decimal(i as nat) } else { "!"@ + decimal(i as nat) }),
            g == (|i: int| if i == 0 { f(i) } else { " & "@ + f(i) }),
            out@ == h + concat_map(i as nat, g),
        decreases label.len() - i,
    {
        let ghost before = out@;
        if i > 0 {
            push_text(out, " & ");
        }
        if !label[i] {
            push_text(out, "!");
        }
        push_decimal(out, i as u64);
        assert(out@ =~= before + g(i as int));
        i = i + 1;
    }
    push_text(out, "]");
    assert(out@ =~= old(out)@ + hoa_label(label@));
}

fn push_hoa_edges(out: &mut String, t: &Transitions)
    ensures
        final(out)@ == old(out)@ + hoa_edges(*t),
{
    let m = if t.transitions.len() <= t.label.len() {
        t.transitions.len()
    } else {
        t.label.len()
    };
    let ghost f = |k: int| "  "@ + hoa_label(t.label@[k]@) + " "@ + decimal(t.transitions@[k] as nat) + "\n"@;
    let mut k: usize = 0;
    while k < m
        invariant
            m == min_len(t.transitions@.len(), t.label@.len()),
            k <= m,
            f == (|k: int| "  "@ + hoa_label(t.label@[k]@) + " "@ + decimal(t.transitions@[k] as nat) + "\n"@),
            out@ == old(out)@ + concat_map(k as nat, f),
        decreases m - k,
    {
        let ghost before = out@;
        push_text(out, "  ");
        push_hoa_label(out, &t.label[k]);
        push_text(out, " ");
        push_decimal(out, t.transitions[k] as u64);
        push_text(out, "\n");
        assert(out@ =~= before + f(k as int));
        k = k + 1;
    }
}

impl NBA {
    /// The lines of one state in HOA: its number, `{0}` when accepting, and its edges.
    pub open spec fn hoa_state(&self, i: int) -> Seq<char> {
        let id = self.states@[i].id;
        "State: "@ + decimal(id as nat) + (if self.acceptance_condition.states@.contains(id) {
            " {0}"@
        } else {
            seq![]
        }) + "\n"@ + hoa_edges(self.transitions@[id as int])
    }

    /// The automaton in HOA.
    pub open spec fn hoa_text(&self) -> Seq<char> {
        hoa_head(self.states@.len(), self.initial_states@, fviews(self.closure@)) + "Acceptance: 1 Inf(0)\n"@
            + "properties: trans-labels explicit-labels state-acc\n"@ + "--BODY--\n"@ + concat_map(
            self.states@.len(),
            |i: int| self.hoa_state(i),
        ) + "--END--\n"@
    }

    /// The automaton in HOA: one acceptance set, edges labelled by all atoms.
    pub fn to_hoa(&self) -> (r: String)
        requires
            forall|i: int| 0 <= i < self.states@.len() ==> (#[trigger] self.states@[i]).id < self.transitions@.len(),
        ensures
            r@ == self.hoa_text(),
    {
        let mut hoa = String::new();
        push_hoa_head(&mut hoa, self.states.len(), &self.initial_states, &self.closure);
        push_text(&mut hoa, "Acceptance: 1 Inf(0)\n");
        push_text(&mut hoa, "properties: trans-labels explicit-labels state-acc\n");
        push_text(&mut hoa, "--BODY--\n");
        let ghost h = hoa@;
        let ghost f = |i: int| self.hoa_state(i);
        let mut i: usize = 0;
        while i < self.states.len()
            invariant
                forall|i: int| 0 <= i < self.states@.len() ==> (#[trigger] self.states@[i]).id < self.transitions@.len(),
                i <= self.states@.len(),
                f == (|i: int| self.hoa_state(i)),
                hoa@ == h + concat_map(i as nat, f),
            decreases self.states.len() - i,
        {
            let ghost before = hoa@;
            let id = self.states[i].id;
            push_text(&mut hoa, "State: ");
            push_decimal(&mut hoa, id as u64);
            if self.is_accepting(id) {
                push_text(&mut hoa, " {0}");
            }
            push_text(&mut hoa, "\n");
            push_hoa_edges(&mut hoa, &self.transitions[id]);
            assert(hoa@ =~= before + f(i as int));
            i = i + 1;
        }
        push_text(&mut hoa, "--END--\n");
        assert(hoa@ =~= self.hoa_text());
        hoa
    }
}

impl GNBA {
    /// The numbers of the acceptance sets a state belongs to.
    pub open spec fn acc_sets_of(&self, id: usize) -> Seq<usize> {
        crate::gnba::filter_ids(
            self.acceptance_conditions@.len(),
            |c: int| self.acceptance_conditions@[c].states@.contains(id),
        )
    }

    /// The acceptance sets of a state in HOA: `{0}` when there are no sets, nothing when it
    /// belongs to none.
    pub open spec fn hoa_acc(&self, id: usize) -> Seq<char> {
        if self.acceptance_conditions@.len() == 0 {
            " {0}"@
        } else if self.acc_sets_of(id).len() == 0 {
            seq![]
        } else {
            " {"@ + join_map(
                self.acc_sets_of(id).len(),
                " "@,
                |j: int| decimal(self.acc_sets_of(id)[j] as nat),
            ) + "}"@
        }
    }

    /// The acceptance line in HOA: all sets visited infinitely often.
    pub open spec fn hoa_acceptance(&self) -> Seq<char> {
        let k = self.acceptance_conditions@.len();
        if k == 0 {
            "Acceptance: 1 Inf(0)\n"@
        } else {
            "Acceptance: "@ + decimal(k) + " "@ + join_map(k, " & "@, |i: int| "Inf("@ + decimal(i as nat) + ")"@)
                + "\n"@
        }
    }

    pub open spec fn hoa_state(&self, i: int) -> Seq<char> {
        let id = self.states@[i].id;
        "State: "@ + decimal(id as nat) + self.hoa_acc(id) + "\n"@ + hoa_edges(self.transitions@[id as int])
    }

    /// The automaton in HOA.
    pub open spec fn hoa_text(&self) -> Seq<char> {
        hoa_head(self.states@.len(), self.initial_states@, self.closure_view()) + self.hoa_acceptance()
            + "properties: trans-labels explicit-labels state-acc\n"@ + "--BODY--\n"@ + concat_map(
            self.states@.len(),
            |i: int| self.hoa_state(i),
        ) + "--END--\n"@
    }

    fn push_hoa_acc(&self, out: &mut String, id: usize)
        ensures
            final(out)@ == old(out)@ + self.hoa_acc(id),
    {
        let k = self.acceptance_conditions.len();
        if k == 0 {
            push_text(out, " {0}");
            return;
        }
        let mut sets: Vec<usize> = Vec::new();
        let ghost p = |c: int| self.acceptance_conditions@[c].states@.contains(id);
        let mut c: usize = 0;
        while c < k
            invariant
                k == self.acceptance_conditions@.len(),
                c <= k,
                p == (|c: int| self.acceptance_conditions@[c].states@.contains(id)),
                sets@ == crate::gnba::filter_ids(c as nat, p),
            decreases k - c,
        {
            if crate::nba::slice_contains(self.acceptance_conditions[c].states.as_slice(), id) {
                sets.push(c);
            }
            c = c + 1;
        }
        if sets.len() == 0 {
            return;
        }
        push_text(out, " {");
        let ghost h = out@;
        let ghost f = |j: int| decimal(sets@[j] as nat);
        let ghost g = |j: int| if j == 0 { f(j) } else { " "@ + f(j) };
        let mut j: usize = 0;
        while j < sets.len()
            invariant
                j <= sets@.len(),
                f == (|j: int| decimal(sets@[j] as nat)),
                g == (|j: int| if j == 0 { f(j) } else { " "@ + f(j) }),
                out@ == h + concat_map(j as nat, g),
            decreases sets.len() - j,
        {
            let ghost before = out@;
            if j > 0 {
                push_text(out, " ");
            }
            push_decimal(out, sets[j] as u64);
            assert(out@ =~= before + g(j as int));
            j = j + 1;
        }
        push_text(out, "}");
        assert(out@ =~= old(out)@ + self.hoa_acc(id));
    }

    fn push_hoa_acceptance(&self, out: &mut String)
        ensures
            final(out)@ == old(out)@ + self.hoa_acceptance(),
    {
        let k = self.acceptance_conditions.len();
        if k == 0 {
            push_text(out, "Acceptance: 1 Inf(0)\n");
            return;
        }
        push_text(out, "Acceptance: ");
        push_decimal(out, k as u64);
        push_text(out, " ");
        let ghost h = out@;
        let ghost f = |i: int| "Inf("@ + decimal(i as nat) + ")"@;
        let ghost g = |i: int| if i == 0 { f(i) } else { " & "@ + f(i) };
        let mut i: usize = 0;
        while i < k
            invariant
                i <= k,
                f == (|i: int| "Inf("@ + decimal(i as nat) + ")"@),
                g == (|i: int| if i == 0 { f(i) } else { " & "@ + f(i) }),
                out@ == h + concat_map(i as nat, g),
            decreases k - i,
        {
            let ghost before = out@;
            if i > 0 {
                push_text(out, " & ");
            }
            push_text(out, "Inf(");
            push_decimal(out, i as u64);
            push_text(out, ")");
            assert(out@ =~= before + g(i as int));
            i = i + 1;
        }
        push_text(out, "\n");
        assert(out@ =~= old(out)@ + self.hoa_acceptance());
    }

    /// The automaton in HOA: one acceptance set per `U` formula, all to be visited infinitely
    /// often, edges labelled by all atoms.
    pub fn to_hoa(&self) -> (r: String)
        requires
            forall|i: int| 0 <= i < self.states@.len() ==> (#[trigger] self.states@[i]).id < self.transitions@.len(),
        ensures
            r@ == self.hoa_text(),
    {
        let mut hoa = String::new();
        push_hoa_head(&mut hoa, self.states.len(), &self.initial_states, &self.closure);
        self.push_hoa_acceptance(&mut hoa);
        push_text(&mut hoa, "properties: trans-labels explicit-labels state-acc\n");
        push_text(&mut hoa, "--BODY--\n");
        let ghost h = hoa@;
        let ghost f = |i: int| self.hoa_state(i);
        let mut i: usize = 0;
        while i < self.states.len()
            invariant
                forall|i: int| 0 <= i < self.states@.len() ==> (#[trigger] self.states@[i]).id < self.transitions@.len(),
                i <= self.states@.len(),
                f == (|i: int| self.hoa_state(i)),
                hoa@ == h + concat_map(i as nat, f),
            decreases self.states.len() - i,
        {
            let ghost before = hoa@;
            let id = self.states[i].id;
            push_text(&mut hoa, "State: ");
            push_decimal(&mut hoa, id as u64);
            self.push_hoa_acc(&mut hoa, id);
            push_text(&mut hoa, "\n");
            push_hoa_edges(&mut hoa, &self.transitions[id]);
            assert(hoa@ =~= before + f(i as int));
            i = i + 1;
        }
        push_text(&mut hoa, "--END--\n");
        assert(hoa@ =~= self.hoa_text());
        hoa
    }
}

} // verus!
