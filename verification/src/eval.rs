//! The evaluator: applying a validated query to one task at a time.
//!
//! A bare string is a free-text predicate on the title. A comparison reads
//! the named field and compares it with the literal: equality exactly,
//! ordering numerically for numbers and dates and lexicographically for
//! strings, and `^` / `^^` as case-insensitive containment and its
//! negation. `AND` / `OR` combine predicates with short-circuit meaning.
//! A field the task does not carry (an absent body or completion date)
//! satisfies only the negative comparisons; the `notes` field matches when
//! some note's body does, and its negative forms when no note matches.

use vstd::prelude::*;
use crate::ast::{Expression, ExprModel, AST};
use crate::task::{List, Note, NoteModel, Task, TaskModel};
use crate::text::{contains_ci, is_substr_at, lower_char_exec, pow10, pow10_exec, seq_lt, str_eq, to_lower};
use crate::token::{dec_wf, Decimal, DecimalModel, Token, TokenModel};
use crate::parser::{spec_field_type, FieldType};

verus! {

/// A comparison operator applied to two strings.
pub open spec fn cmp_str_op(op: TokenModel, val: Seq<char>, v: Seq<char>) -> bool {
    match op {
        TokenModel::EQ => val == v,
        TokenModel::NE => val != v,
        TokenModel::LIKE => contains_ci(val, v),
        TokenModel::NLIKE => !contains_ci(val, v),
        TokenModel::GT => seq_lt(v, val),
        TokenModel::LT => seq_lt(val, v),
        TokenModel::GTE => !seq_lt(val, v),
        TokenModel::LTE => !seq_lt(v, val),
        _ => false,
    }
}

/// A comparison operator applied to two whole numbers; containment
/// degenerates to equality.
pub open spec fn cmp_int_op(op: TokenModel, a: int, b: int) -> bool {
    match op {
        TokenModel::EQ => a == b,
        TokenModel::NE => a != b,
        TokenModel::LIKE => a == b,
        TokenModel::NLIKE => a != b,
        TokenModel::GT => a > b,
        TokenModel::LT => a < b,
        TokenModel::GTE => a >= b,
        TokenModel::LTE => a <= b,
        _ => false,
    }
}

/// A comparison operator between a whole-number priority and a decimal
/// literal, compared exactly by scaling. A literal that is not in
/// canonical form matches nothing.
pub open spec fn cmp_num_op(op: TokenModel, p: int, d: DecimalModel) -> bool {
    if !dec_wf(d) {
        false
    } else {
        cmp_int_op(op, p * pow10(d.scale), d.mantissa)
    }
}

/// One comparison node applied to a task: dispatch on the field's name.
pub open spec fn spec_eval_cmp(
    name: Seq<char>,
    op: TokenModel,
    right: ExprModel,
    t: TaskModel,
) -> bool {
    match spec_field_type(name) {
        Some(FieldType::StrField) => match right {
            ExprModel::StrLit(v) => if name == "title"@ {
                cmp_str_op(op, t.title, v)
            } else if name == "context"@ {
                cmp_str_op(op, t.context, v)
            } else if name == "body"@ {
                match t.body {
                    Some(b) => cmp_str_op(op, b, v),
                    None => op == TokenModel::NE || op == TokenModel::NLIKE,
                }
            } else {
                match op {
                    TokenModel::NE => !(exists|i: int|
                        0 <= i < t.notes.len() && cmp_str_op(
                            TokenModel::EQ,
                            (#[trigger] t.notes[i]).body,
                            v,
                        )),
                    TokenModel::NLIKE => !(exists|i: int|
                        0 <= i < t.notes.len() && cmp_str_op(
                            TokenModel::LIKE,
                            (#[trigger] t.notes[i]).body,
                            v,
                        )),
                    _ => exists|i: int|
                        0 <= i < t.notes.len() && cmp_str_op(op, (#[trigger] t.notes[i]).body, v),
                }
            },
            _ => false,
        },
        Some(FieldType::DateField) => match right {
            ExprModel::DateLit(d) => if name == "created_date"@ {
                cmp_int_op(op, t.created_date, d)
            } else {
                match t.completed_date {
                    Some(c) => cmp_int_op(op, c, d),
                    None => op == TokenModel::NE || op == TokenModel::NLIKE,
                }
            },
            _ => false,
        },
        Some(FieldType::NumField) => match right {
            ExprModel::NumLit(d) => cmp_num_op(op, t.priority, d),
            _ => false,
        },
        None => false,
    }
}

/// What a query expression says of one task.
pub open spec fn spec_eval(e: ExprModel, t: TaskModel) -> bool
    decreases e,
{
    match e {
        ExprModel::StrLit(s) => contains_ci(t.title, s),
        ExprModel::NumLit(_) => false,
        ExprModel::DateLit(_) => false,
        ExprModel::Infix(b) => if b.op == TokenModel::AND {
            spec_eval(b.left, t) && spec_eval(b.right, t)
        } else if b.op == TokenModel::OR {
            spec_eval(b.left, t) || spec_eval(b.right, t)
        } else {
            match b.left {
                ExprModel::StrLit(name) => spec_eval_cmp(name, b.op, b.right, t),
                _ => false,
            }
        },
    }
}

/// Case-insensitive containment test.
#[verifier::loop_isolation(false)]
pub fn contains_ci_exec(hay: &str, needle: &str) -> (r: bool)
    ensures
        r == contains_ci(hay@, needle@),
{
    let ghost hl = to_lower(hay@);
    let ghost nl = to_lower(needle@);
    let hlen = hay.unicode_len();
    let nlen = needle.unicode_len();
    if nlen > hlen {
        proof {
            assert(forall|i: int| !is_substr_at(hl, nl, i));
        }
        return false;
    }
    let limit = hlen - nlen;
    let mut i: usize = 0;
    while i <= limit
        invariant
            i <= limit,
            limit == hlen - nlen,
            forall|j: int| 0 <= j < i ==> !is_substr_at(hl, nl, j),
        decreases limit - i,
    {
        let mut k: usize = 0;
        let mut hit = true;
        while k < nlen && hit
            invariant
                k <= nlen,
                hit ==> forall|q: int| 0 <= q < k ==> hl[i + q] == nl[q],
                !hit ==> !is_substr_at(hl, nl, i as int),
            decreases nlen - k + if hit {
                1int
            } else {
                0int
            },
        {
            let hc = lower_char_exec(hay.get_char(i + k));
            let nc = lower_char_exec(needle.get_char(k));
            if hc != nc {
                proof {
                    assert(hl[i + k] != nl[k as int]);
                    assert(!is_substr_at(hl, nl, i as int)) by {
                        if is_substr_at(hl, nl, i as int) {
                            assert(hl.subrange(i as int, i + nl.len())[k as int] == nl[k as int]);
                        }
                    }
                }
                hit = false;
            } else {
                k = k + 1;
            }
        }
        if hit {
            proof {
                assert(hl.subrange(i as int, i + nl.len()) =~= nl);
                assert(is_substr_at(hl, nl, i as int));
            }
            return true;
        }
        if i == limit {
            proof {
                assert(forall|j: int| !is_substr_at(hl, nl, j));
            }
            return false;
        }
        i = i + 1;
    }
    proof {
        assert(forall|j: int| !is_substr_at(hl, nl, j));
    }
    false
}

/// Lexicographic order test on the raw characters.
#[verifier::loop_isolation(false)]
pub fn seq_lt_exec(a: &str, b: &str) -> (r: bool)
    ensures
        r == seq_lt(a@, b@),
{
    let alen = a.unicode_len();
    let blen = b.unicode_len();
    let mut i: usize = 0;
    proof {
        assert(a@.skip(0) =~= a@);
        assert(b@.skip(0) =~= b@);
    }
    while i < alen && i < blen
        invariant
            i <= alen,
            i <= blen,
            seq_lt(a@, b@) == seq_lt(a@.skip(i as int), b@.skip(i as int)),
        decreases alen - i,
    {
        let ca = a.get_char(i);
        let cb = b.get_char(i);
        if ca != cb {
            proof {
                assert(a@.skip(i as int)[0] == ca);
                assert(b@.skip(i as int)[0] == cb);
            }
            return (ca as u32) < (cb as u32);
        }
        proof {
            assert(a@.skip(i as int)[0] == ca);
            assert(b@.skip(i as int)[0] == cb);
            assert(a@.skip(i as int).skip(1) =~= a@.skip(i + 1));
            assert(b@.skip(i as int).skip(1) =~= b@.skip(i + 1));
        }
        i = i + 1;
    }
    proof {
        assert(a@.skip(i as int).len() == a@.len() - i);
        assert(b@.skip(i as int).len() == b@.len() - i);
    }
    i == alen && i < blen
}

/// A comparison operator applied to two string slices.
fn cmp_str_exec(op: &Token, val: &str, v: &str) -> (r: bool)
    ensures
        r == cmp_str_op(op@, val@, v@),
{
    match op {
        Token::EQ => str_eq(val, v),
        Token::NE => !str_eq(val, v),
        Token::LIKE => contains_ci_exec(val, v),
        Token::NLIKE => !contains_ci_exec(val, v),
        Token::GT => seq_lt_exec(v, val),
        Token::LT => seq_lt_exec(val, v),
        Token::GTE => !seq_lt_exec(val, v),
        Token::LTE => !seq_lt_exec(v, val),
        _ => false,
    }
}

/// A comparison operator applied to two timestamps or whole numbers.
fn cmp_int_exec(op: &Token, a: i64, b: i64) -> (r: bool)
    ensures
        r == cmp_int_op(op@, a as int, b as int),
{
    match op {
        Token::EQ => a == b,
        Token::NE => a != b,
        Token::LIKE => a == b,
        Token::NLIKE => a != b,
        Token::GT => a > b,
        Token::LT => a < b,
        Token::GTE => a >= b,
        Token::LTE => a <= b,
        _ => false,
    }
}

/// A comparison operator between the task's priority and a number
/// literal.
fn cmp_num_exec(op: &Token, p: i64, d: &Decimal) -> (r: bool)
    ensures
        r == cmp_num_op(op@, p as int, d@),
{
    let canonical = d.mantissa < 1000000000000000 && d.scale <= 15 && (d.scale == 0 || d.mantissa
        % 10 != 0);
    if !canonical {
        return false;
    }
    let pw = pow10_exec(d.scale);
    proof {
        let pi = p as int;
        let pwi = pw as int;
        assert((-9223372036854775808) * 1000000000000000 <= pi * pwi <= 9223372036854775807
            * 1000000000000000) by (nonlinear_arith)
            requires
                -9223372036854775808 <= pi <= 9223372036854775807,
                0 <= pwi <= 1000000000000000,
        ;
    }
    let lhs: i128 = (p as i128) * (pw as i128);
    let rhs: i128 = d.mantissa as i128;
    match op {
        Token::EQ => lhs == rhs,
        Token::NE => lhs != rhs,
        Token::LIKE => lhs == rhs,
        Token::NLIKE => lhs != rhs,
        Token::GT => lhs > rhs,
        Token::LT => lhs < rhs,
        Token::GTE => lhs >= rhs,
        Token::LTE => lhs <= rhs,
        _ => false,
    }
}

/// Whether some note's body satisfies the comparison.
#[verifier::loop_isolation(false)]
fn any_note(op: &Token, notes: &Vec<Note>, v: &str) -> (r: bool)
    ensures
        r == exists|i: int|
            0 <= i < notes@.len() && cmp_str_op(op@, (#[trigger] notes@[i])@.body, v@),
{
    let ghost m = notes@.map_values(|n: Note| n@);
    let mut i: usize = 0;
    while i < notes.len()
        invariant
            i <= notes@.len(),
            forall|k: int| 0 <= k < i ==> !cmp_str_op(op@, (#[trigger] notes@[k])@.body, v@),
        decreases notes@.len() - i,
    {
        if cmp_str_exec(op, notes[i].body.as_str(), v) {
            return true;
        }
        i = i + 1;
    }
    false
}

/// The note scan and the task model's note sequence agree on whether some
/// note satisfies the comparison.
proof fn lemma_notes_bridge(ns: Seq<Note>, m: Seq<NoteModel>, op: TokenModel, v: Seq<char>)
    requires
        m == ns.map_values(|n: Note| n@),
    ensures
        (exists|i: int| 0 <= i < ns.len() && cmp_str_op(op, (#[trigger] ns[i])@.body, v)) == (
        exists|i: int| 0 <= i < m.len() && cmp_str_op(op, (#[trigger] m[i]).body, v)),
{
    if exists|i: int| 0 <= i < ns.len() && cmp_str_op(op, (#[trigger] ns[i])@.body, v) {
        let w = choose|i: int| 0 <= i < ns.len() && cmp_str_op(op, (#[trigger] ns[i])@.body, v);
        assert(m[w] == ns[w]@);
        assert(cmp_str_op(op, m[w].body, v));
    }
    if exists|i: int| 0 <= i < m.len() && cmp_str_op(op, (#[trigger] m[i]).body, v) {
        let w = choose|i: int| 0 <= i < m.len() && cmp_str_op(op, (#[trigger] m[i]).body, v);
        assert(ns[w]@ == m[w]);
        assert(cmp_str_op(op, ns[w]@.body, v));
    }
}

/// One comparison node applied to a task.
fn eval_cmp(name: &str, op: &Token, right: &Expression, task: &Task) -> (r: bool)
    ensures
        r == spec_eval_cmp(name@, op@, right@, task@),
{
    if str_eq(name, "title") {
        match right {
            Expression::StrLiteral(v) => cmp_str_exec(op, task.title.as_str(), v.as_str()),
            _ => false,
        }
    } else if str_eq(name, "context") {
        match right {
            Expression::StrLiteral(v) => cmp_str_exec(op, task.context.as_str(), v.as_str()),
            _ => false,
        }
    } else if str_eq(name, "body") {
        match right {
            Expression::StrLiteral(v) => match &task.body {
                Some(b) => cmp_str_exec(op, b.as_str(), v.as_str()),
                None => match op {
                    Token::NE => true,
                    Token::NLIKE => true,
                    _ => false,
                },
            },
            _ => false,
        }
    } else if str_eq(name, "notes") {
        match right {
            Expression::StrLiteral(v) => match op {
                Token::NE => {
                    let eq_op = Token::EQ;
                    let got = any_note(&eq_op, &task.notes, v.as_str());
                    proof {
                        lemma_notes_bridge(task.notes@, task@.notes, TokenModel::EQ, v@);
                    }
                    !got
                },
                Token::NLIKE => {
                    let like_op = Token::LIKE;
                    let got = any_note(&like_op, &task.notes, v.as_str());
                    proof {
                        lemma_notes_bridge(task.notes@, task@.notes, TokenModel::LIKE, v@);
                    }
                    !got
                },
                _ => {
                    let got = any_note(op, &task.notes, v.as_str());
                    proof {
                        lemma_notes_bridge(task.notes@, task@.notes, op@, v@);
                    }
                    got
                },
            },
            _ => false,
        }
    } else if str_eq(name, "created_date") {
        match right {
            Expression::DateLiteral(d) => cmp_int_exec(op, task.created_date, *d),
            _ => false,
        }
    } else if str_eq(name, "completed_date") {
        match right {
            Expression::DateLiteral(d) => match task.completed_date {
                Some(c) => cmp_int_exec(op, c, *d),
                None => match op {
                    Token::NE => true,
                    Token::NLIKE => true,
                    _ => false,
                },
            },
            _ => false,
        }
    } else if str_eq(name, "priority") {
        match right {
            Expression::NumLiteral(d) => cmp_num_exec(op, task.priority, d),
            _ => false,
        }
    } else {
        false
    }
}

/// One expression applied to a task.
fn eval_expr(e: &Expression, task: &Task) -> (r: bool)
    ensures
        r == spec_eval(e@, task@),
    decreases e,
{
    match e {
        Expression::StrLiteral(s) => {
            let r = contains_ci_exec(task.title.as_str(), s.as_str());
            proof {
                assert(r == contains_ci(task@.title, s@));
                assert(e@ == ExprModel::StrLit(s@));
                assert(spec_eval(e@, task@) == contains_ci(task@.title, s@));
            }
            r
        },
        Expression::NumLiteral(_) => false,
        Expression::DateLiteral(_) => false,
        Expression::Infix(b) => match &b.operator {
            Token::AND => eval_expr(&b.left, task) && eval_expr(&b.right, task),
            Token::OR => eval_expr(&b.left, task) || eval_expr(&b.right, task),
            op => match &b.left {
                Expression::StrLiteral(name) => eval_cmp(name.as_str(), op, &b.right, task),
                _ => false,
            },
        },
    }
}

/// Whether the task satisfies the validated query.
pub fn evaluate(ast: &AST, task: &Task) -> (r: bool)
    ensures
        r == spec_eval(ast@, task@),
{
    eval_expr(&ast.expression, task)
}

/// The tasks satisfying the query, in their original order.
#[verifier::loop_isolation(false)]
pub fn filter(ast: &AST, tasks: &Vec<Task>) -> (r: Vec<Task>)
    ensures
        r@.map_values(|t: Task| t@) == tasks@.map_values(|t: Task| t@).filter(
            |t: TaskModel| spec_eval(ast@, t),
        ),
{
    let ghost all = tasks@.map_values(|t: Task| t@);
    let ghost pred = |t: TaskModel| spec_eval(ast@, t);
    let mut out: Vec<Task> = Vec::new();
    let mut i: usize = 0;
    proof {
        reveal(Seq::filter);
        assert(all.take(0) =~= Seq::<TaskModel>::empty());
        assert(out@.map_values(|t: Task| t@) =~= Seq::<TaskModel>::empty());
    }
    while i < tasks.len()
        invariant
            i <= all.len(),
            all == tasks@.map_values(|t: Task| t@),
            out@.map_values(|t: Task| t@) == all.take(i as int).filter(pred),
        decreases all.len() - i,
    {
        let keep = evaluate(ast, &tasks[i]);
        let ghost prev = out@.map_values(|t: Task| t@);
        if keep {
            out.push(tasks[i].duplicate());
        }
        proof {
            reveal(Seq::filter);
            assert(all.take(i + 1).drop_last() =~= all.take(i as int));
            assert(all.take(i + 1).last() == all[i as int]);
            if keep {
                assert(out@.map_values(|t: Task| t@) =~= prev.push(all[i as int]));
            }
        }
        i = i + 1;
    }
    proof {
        assert(all.take(all.len() as int) =~= all);
    }
    out
}

impl List {
    /// The tasks of this list matching the query, keeping the list's
    /// order.
    pub fn search(&self, ast: &AST) -> (r: Vec<Task>)
        ensures
            r@.map_values(|t: Task| t@) == self@.filter(|t: TaskModel| spec_eval(ast@, t)),
    {
        filter(ast, &self.tasks)
    }
}

} // verus!
