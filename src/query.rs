use random::Source;
use vstd::prelude::*;

use crate::lexer::{count_char, count_of, lex, tokenize, tokens_view, Token, TokenKind, TokenView};
use crate::literal::{find_either, first_of, int_of, parse_int, parse_row, row_of};
use crate::text::{at_position, chars_of, position_text, string_of};
use crate::value::{RecordId, Value, ValueView};

verus! {

/// One instruction of a compiled program.
#[derive(Debug, PartialEq, Eq)]
pub enum Operation {
    /// Marks the start of a program; does nothing.
    Start,
    /// Marks the end of a program; does nothing.
    End,
    Push(Value),
    SetField,
    Select,
    SelectAll,
    Filter,
    Drop,
    Add,
    Subtract,
    It,
    /// Starts a loop: runs its body while the count is positive, else goes to `end`.
    Range { value: i64, end: usize },
    /// Goes back to the `Range` that opened the loop.
    Jump(usize),
}

/// A compiled query, run from its first operation.
pub type Program = Vec<Operation>;

/// The mathematical form of an `Operation`.
pub enum OpView {
    Start,
    End,
    Push(ValueView),
    SetField,
    Select,
    SelectAll,
    Filter,
    Drop,
    Add,
    Subtract,
    It,
    Range { value: i64, end: int },
    Jump(int),
}

impl View for Operation {
    type V = OpView;

    open spec fn view(&self) -> OpView {
        match self {
            Operation::Start => OpView::Start,
            Operation::End => OpView::End,
            Operation::Push(v) => OpView::Push(v@),
            Operation::SetField => OpView::SetField,
            Operation::Select => OpView::Select,
            Operation::SelectAll => OpView::SelectAll,
            Operation::Filter => OpView::Filter,
            Operation::Drop => OpView::Drop,
            Operation::Add => OpView::Add,
            Operation::Subtract => OpView::Subtract,
            Operation::It => OpView::It,
            Operation::Range { value, end } => OpView::Range { value: *value, end: *end as int },
            Operation::Jump(t) => OpView::Jump(*t as int),
        }
    }
}

/// The views of a program's operations.
pub open spec fn ops_view(p: Seq<Operation>) -> Seq<OpView> {
    p.map_values(|o: Operation| o@)
}

/// A program whose loops are well nested: each `Range` ends further on, within the
/// program, and each `Jump` goes back to the `Range` whose end is just past it.
pub open spec fn wf_program(p: Seq<OpView>) -> bool {
    &&& forall|j: int|
        0 <= j < p.len() && (#[trigger] p[j]) is Range ==> j < p[j]->end <= p.len()
    &&& forall|j: int|
        0 <= j < p.len() && (#[trigger] p[j]) is Jump ==> {
            let t = p[j]->Jump_0;
            &&& 0 <= t < j
            &&& p[t] is Range
            &&& p[t]->end == j + 1
        }
}

/// What the compiler has built so far: the program and the loops still open.
pub struct CompileState {
    pub prog: Seq<OpView>,
    pub scopes: Seq<int>,
}

/// The identity that an `@table:row` word writes, with `draw` standing for a row of
/// `_`. The table's name is what stands between the `@` and the `:`.
pub open spec fn id_literal(w: Seq<char>, draw: u64) -> Option<(Seq<char>, u64)> {
    if w.len() == 0 || w[0] != '@' || count_of(w, ':') != 1 {
        None
    } else {
        let p = first_of(w, ':', ':');
        let r = w.subrange(p + 1, w.len() as int);
        if r == "_"@ {
            Some((w.subrange(1, p), draw))
        } else {
            match row_of(r) {
                Some(n) => Some((w.subrange(1, p), n)),
                None => None,
            }
        }
    }
}

/// Whether an identity word asks for a random row.
pub open spec fn wants_draw(t: TokenView) -> bool {
    t.kind == TokenKind::Id && count_of(t.word, ':') == 1 && t.word.subrange(
        first_of(t.word, ':', ':') + 1,
        t.word.len() as int,
    ) == "_"@
}

/// A state with one more operation.
pub open spec fn emit(st: CompileState, op: OpView) -> CompileState {
    CompileState { prog: st.prog.push(op), scopes: st.scopes }
}

/// Compiles the tokens from `i` on, starting in `st`; `Err` with the index of
/// the token at fault for a compile error.
/// `rows[k]` is the row drawn for token `k` and `floats[k]` the bits of its float.
pub open spec fn compile_from(
    toks: Seq<TokenView>,
    rows: Seq<u64>,
    floats: Seq<u64>,
    i: int,
    st: CompileState,
) -> Result<CompileState, int>
    decreases toks.len() - i,
{
    if i < 0 || i >= toks.len() {
        Ok(st)
    } else {
        let t = toks[i];
        match t.kind {
            TokenKind::Id => match id_literal(t.word, rows[i]) {
                Some(id) => compile_from(toks, rows, floats, i + 1, emit(st, OpView::Push(ValueView::Id(id.0, id.1)))),
                None => Err(i),
            },
            TokenKind::String => if t.word.len() >= 2 {
                compile_from(
                    toks,
                    rows,
                    floats,
                    i + 1,
                    emit(st, OpView::Push(ValueView::Text(t.word.subrange(1, t.word.len() - 1)))),
                )
            } else {
                Err(i)
            },
            TokenKind::Int => match int_of(t.word) {
                Some(n) => compile_from(toks, rows, floats, i + 1, emit(st, OpView::Push(ValueView::Int(n)))),
                None => Err(i),
            },
            TokenKind::Float => compile_from(toks, rows, floats, i + 1, emit(st, OpView::Push(ValueView::Float(floats[i])))),
            TokenKind::SetField => compile_from(toks, rows, floats, i + 1, emit(st, OpView::SetField)),
            TokenKind::Select => compile_from(toks, rows, floats, i + 1, emit(st, OpView::Select)),
            TokenKind::SelectAll => compile_from(toks, rows, floats, i + 1, emit(st, OpView::SelectAll)),
            TokenKind::Filter => compile_from(toks, rows, floats, i + 1, emit(st, OpView::Filter)),
            TokenKind::Drop => compile_from(toks, rows, floats, i + 1, emit(st, OpView::Drop)),
            TokenKind::Plus => compile_from(toks, rows, floats, i + 1, emit(st, OpView::Add)),
            TokenKind::Minus => compile_from(toks, rows, floats, i + 1, emit(st, OpView::Subtract)),
            TokenKind::Range => if i + 1 >= toks.len() {
                Err(i)
            } else if toks[i + 1].kind == TokenKind::Int && int_of(toks[i + 1].word) is Some {
                let n = int_of(toks[i + 1].word)->0;
                compile_from(
                    toks,
                    rows,
                    floats,
                    i + 2,
                    CompileState {
                        prog: st.prog.push(OpView::Range { value: n, end: 0 }),
                        scopes: st.scopes.push(st.prog.len() as int),
                    },
                )
            } else {
                Err(i)
            },
            TokenKind::It => if st.scopes.len() > 0 {
                compile_from(toks, rows, floats, i + 1, emit(st, OpView::It))
            } else {
                Err(i)
            },
            TokenKind::Do => compile_from(toks, rows, floats, i + 1, st),
            TokenKind::End => if st.scopes.len() > 0 {
                let pos = st.scopes.last();
                let end = st.prog.len() as int + 1;
                compile_from(
                    toks,
                    rows,
                    floats,
                    i + 1,
                    CompileState {
                        prog: st.prog.update(pos, OpView::Range { value: st.prog[pos]->value, end: end }).push(
                            OpView::Jump(pos),
                        ),
                        scopes: st.scopes.drop_last(),
                    },
                )
            } else {
                Err(i)
            },
            TokenKind::Word => Err(i),
        }
    }
}

/// The finished program: the trailing `End`, and every loop still open made to
/// run to the end of the program.
pub open spec fn finish(st: CompileState) -> Seq<OpView> {
    let p = st.prog.push(OpView::End);
    p.map(
        |j: int, op: OpView|
            if st.scopes.contains(j) {
                OpView::Range { value: op->value, end: p.len() as int }
            } else {
                op
            },
    )
}

/// The program that the tokens compile to, or the index of the token at fault.
pub open spec fn compile_spec(toks: Seq<TokenView>, rows: Seq<u64>, floats: Seq<u64>) -> Result<Seq<OpView>, int> {
    match compile_from(toks, rows, floats, 0, compile_start()) {
        Ok(st) => Ok(finish(st)),
        Err(k) => Err(k),
    }
}

/// What a compile error says of the token at fault: an unknown word is named, with
/// its line and column.
pub open spec fn names_fault(toks: Seq<TokenView>, k: int, e: Seq<char>) -> bool {
    0 <= k < toks.len() && toks[k].kind == TokenKind::Word ==> e == "Unexpected word `"@
        + toks[k].word + position_text("`"@, toks[k].line as nat, toks[k].col as nat)
}

/// What holds of the compiler's state between two tokens.
pub open spec fn compiling(st: CompileState) -> bool {
    let p = st.prog;
    let s = st.scopes;
    &&& forall|a: int, b: int| 0 <= a < b < s.len() ==> s[a] < s[b]
    &&& forall|a: int| 0 <= a < s.len() ==> 0 <= #[trigger] s[a] < p.len() && p[s[a]] is Range
    &&& forall|j: int|
        0 <= j < p.len() && (#[trigger] p[j]) is Range && !s.contains(j) ==> j < p[j]->end <= p.len()
    &&& forall|j: int|
        0 <= j < p.len() && (#[trigger] p[j]) is Jump ==> {
            let t = p[j]->Jump_0;
            &&& 0 <= t < j
            &&& p[t] is Range
            &&& p[t]->end == j + 1
            &&& !s.contains(t)
        }
}


/// The state in which compiling starts.
pub open spec fn compile_start() -> CompileState {
    CompileState { prog: seq![OpView::Start], scopes: Seq::empty() }
}

/// The scopes of the compiler as integers.
pub open spec fn scopes_view(s: Seq<usize>) -> Seq<int> {
    s.map_values(|x: usize| x as int)
}

proof fn lemma_finish_wf(st: CompileState)
    requires
        compiling(st),
    ensures
        wf_program(finish(st)),
{
    let p = st.prog.push(OpView::End);
    let f = finish(st);
    assert forall|j: int| 0 <= j < f.len() && (#[trigger] f[j]) is Range implies j < f[j]->end <= f.len() by {
        if !st.scopes.contains(j) {
            assert(p[j] == st.prog[j]);
        }
    }
    assert forall|j: int| 0 <= j < f.len() && (#[trigger] f[j]) is Jump implies ({
        let t = f[j]->Jump_0;
        &&& 0 <= t < j
        &&& f[t] is Range
        &&& f[t]->end == j + 1
    }) by {
        assert(!st.scopes.contains(j)) by {
            if st.scopes.contains(j) {
                let a = choose|a: int| 0 <= a < st.scopes.len() && st.scopes[a] == j;
                assert(st.prog[st.scopes[a]] is Range);
            }
        }
        assert(p[j] == st.prog[j]);
        let t = st.prog[j]->Jump_0;
        assert(f[t] == p[t]);
    }
}

/// The identity that an `@table:row` word writes, with `draw` for a row of `_`.
fn id_value(word: &String, draw: u64) -> (r: Option<RecordId>)
    ensures
        r matches Some(id) ==> id_literal(word@, draw) == Some(id@),
        r is None ==> id_literal(word@, draw) is None,
{
    let w = chars_of(word.as_str());
    let n = w.len();
    if n == 0 || w[0] != '@' || count_char(&w, ':') != 1 {
        return None;
    }
    let p = find_either(&w, 0, n, ':', ':');
    assert(w@.subrange(0, n as int) =~= w@);
    if p == n {
        proof {
            lemma_first_absent(w@, ':');
        }
        return None;
    }
    assert(p >= 1) by {
        lemma_first_of_bounds(w@.drop_first(), ':', ':');
    }
    let table_name = string_of(&w, 1, p);
    let rest = slice_of(&w, p + 1, n);
    proof {
        reveal_strlit("_");
    }
    if rest.len() == 1 && rest[0] == '_' {
        assert(rest@ =~= "_"@);
        Some(RecordId::new(table_name, draw))
    } else {
        assert(rest@ != "_"@);
        match parse_row(&rest) {
            Some(row) => Some(RecordId::new(table_name, row)),
            None => None,
        }
    }
}

proof fn lemma_first_of_bounds(w: Seq<char>, c: char, d: char)
    ensures
        0 <= first_of(w, c, d) <= w.len(),
    decreases w.len(),
{
    if w.len() > 0 {
        lemma_first_of_bounds(w.drop_first(), c, d);
    }
}

proof fn lemma_first_absent(w: Seq<char>, c: char)
    requires
        first_of(w, c, c) == w.len(),
    ensures
        count_of(w, c) == 0,
    decreases w.len(),
{
    if w.len() > 0 {
        assert(w[0] != c);
        lemma_first_absent(w.drop_first(), c);
        lemma_count_first(w, c);
    }
}

proof fn lemma_count_first(w: Seq<char>, c: char)
    requires
        w.len() > 0,
    ensures
        count_of(w, c) == count_of(w.drop_first(), c) + if w[0] == c {
            1nat
        } else {
            0nat
        },
    decreases w.len(),
{
    if w.len() > 1 {
        lemma_count_first(w.drop_last(), c);
        assert(w.drop_last().drop_first() =~= w.drop_first().drop_last());
        assert(w.drop_first().last() == w.last());
        assert(w.drop_last()[0] == w[0]);
    } else {
        assert(w.drop_first().len() == 0);
        assert(w.drop_last().len() == 0);
        assert(count_of(w.drop_first(), c) == 0);
        assert(count_of(w.drop_last(), c) == 0);
        assert(w.last() == w[0]);
    }
}

/// The characters `v[from..to]`.
fn slice_of(v: &Vec<char>, from: usize, to: usize) -> (r: Vec<char>)
    requires
        from <= to <= v@.len(),
    ensures
        r@ == v@.subrange(from as int, to as int),
{
    let mut out: Vec<char> = Vec::new();
    let mut i: usize = from;
    while i < to
        invariant
            from <= i <= to <= v@.len(),
            out@ == v@.subrange(from as int, i as int),
        decreases to - i,
    {
        out.push(v[i]);
        assert(out@ =~= v@.subrange(from as int, i + 1));
        i = i + 1;
    }
    out
}

/// Compiles tokens into a program. Literals become pushes, keywords their
/// operations; `range N do ... end` becomes a `Range` whose end is patched when
/// its `end` comes, and a `Jump` back to it. `rows[k]` is the row for token `k`
/// when it is an identity with row `_`, and `floats[k]` the bit pattern of token
/// `k` when it is a float.
pub fn compile(tokens: &Vec<Token>, rows: &Vec<u64>, floats: &Vec<u64>) -> (r: Result<Program, String>)
    requires
        rows@.len() == tokens@.len(),
        floats@.len() == tokens@.len(),
        tokens@.len() < usize::MAX - 2,
    ensures
        match compile_spec(tokens_view(tokens@), rows@, floats@) {
            Ok(p) => r matches Ok(q) && ops_view(q@) == p,
            Err(k) => r matches Err(e) && names_fault(tokens_view(tokens@), k, e@),
        },
        r matches Ok(q) ==> wf_program(ops_view(q@)),
{
    let ghost toks = tokens_view(tokens@);
    let ghost init = compile_start();
    let mut program: Vec<Operation> = Vec::new();
    program.push(Operation::Start);
    let mut scopes: Vec<usize> = Vec::new();
    let mut i: usize = 0;
    assert(ops_view(program@) =~= seq![OpView::Start]);
    assert(init.scopes =~= Seq::<int>::empty());
    assert(scopes_view(scopes@) =~= Seq::<int>::empty());
    while i < tokens.len()
        invariant
            i <= tokens@.len() + 1,
            tokens@.len() < usize::MAX - 2,
            toks == tokens_view(tokens@),
            init == compile_start(),
            rows@.len() == tokens@.len(),
            floats@.len() == tokens@.len(),
            1 <= program@.len() <= i + 1,
            compile_from(toks, rows@, floats@, 0, init) == compile_from(
                toks,
                rows@,
                floats@,
                i as int,
                CompileState { prog: ops_view(program@), scopes: scopes_view(scopes@) },
            ),
            compiling(CompileState { prog: ops_view(program@), scopes: scopes_view(scopes@) }),
        decreases tokens@.len() - i,
    {
        let token = &tokens[i];
        let ghost before = ops_view(program@);
        let ghost sv = scopes_view(scopes@);
        let ghost cur = CompileState { prog: before, scopes: sv };
        assert(toks[i as int] == token@);
        match token.kind {
            TokenKind::Id => match id_value(&token.word, rows[i]) {
                Some(id) => {
                    program.push(Operation::Push(Value::Id(id)));
                },
                None => {
                    assert(compile_from(toks, rows@, floats@, i as int, cur) is Err);
                    assert(compile_from(toks, rows@, floats@, 0, init) is Err);
                    return Err(at_position("Unexpected id format (it should be like @table_name:1234)", token.line, token.col));
                },
            },
            TokenKind::String => {
                let w = chars_of(token.word.as_str());
                let n = w.len();
                if n < 2 {
                    assert(compile_from(toks, rows@, floats@, i as int, cur) is Err);
                    assert(compile_from(toks, rows@, floats@, 0, init) is Err);
                    return Err(at_position("Unterminated string", token.line, token.col));
                }
                program.push(Operation::Push(Value::String(string_of(&w, 1, n - 1))));
            },
            TokenKind::Int => {
                let w = chars_of(token.word.as_str());
                match parse_int(&w) {
                    Some(n) => {
                        program.push(Operation::Push(Value::Int(n)));
                    },
                    None => {
                        assert(compile_from(toks, rows@, floats@, i as int, cur) is Err);
                        assert(compile_from(toks, rows@, floats@, 0, init) is Err);
                        return Err(at_position("Integer out of range", token.line, token.col));
                    },
                }
            },
            TokenKind::Float => {
                program.push(Operation::Push(Value::Float(floats[i])));
            },
            TokenKind::SetField => {
                program.push(Operation::SetField);
            },
            TokenKind::Select => {
                program.push(Operation::Select);
            },
            TokenKind::SelectAll => {
                program.push(Operation::SelectAll);
            },
            TokenKind::Filter => {
                program.push(Operation::Filter);
            },
            TokenKind::Drop => {
                program.push(Operation::Drop);
            },
            TokenKind::Plus => {
                program.push(Operation::Add);
            },
            TokenKind::Minus => {
                program.push(Operation::Subtract);
            },
            TokenKind::Range => {
                if i + 1 >= tokens.len() {
                    assert(compile_from(toks, rows@, floats@, i as int, cur) is Err);
                    assert(compile_from(toks, rows@, floats@, 0, init) is Err);
                    return Err(at_position("Expected an int after range", token.line, token.col));
                }
                let next = &tokens[i + 1];
                assert(toks[i + 1] == next@);
                if next.kind != TokenKind::Int {
                    assert(compile_from(toks, rows@, floats@, i as int, cur) is Err);
                    assert(compile_from(toks, rows@, floats@, 0, init) is Err);
                    return Err(at_position("Expected an int after range", next.line, next.col));
                }
                let w = chars_of(next.word.as_str());
                let value = match parse_int(&w) {
                    Some(n) => n,
                    None => {
                        assert(compile_from(toks, rows@, floats@, i as int, cur) is Err);
                        assert(compile_from(toks, rows@, floats@, 0, init) is Err);
                        return Err(at_position("Expected an int after range", next.line, next.col));
                    },
                };
                let pos = program.len();
                scopes.push(pos);
                program.push(Operation::Range { value, end: 0 });
                i = i + 1;
                proof {
                    let p = ops_view(program@);
                    assert(p =~= before.push(OpView::Range { value, end: 0 }));
                    assert(scopes_view(scopes@) =~= sv.push(pos as int));
                    assert forall|j: int| 0 <= j < p.len() && (#[trigger] p[j]) is Range && !scopes_view(scopes@).contains(j)
                        implies j < p[j]->end <= p.len() by {
                        assert(j != pos);
                        assert(!sv.contains(j)) by {
                            if sv.contains(j) {
                                let a = choose|a: int| 0 <= a < sv.len() && sv[a] == j;
                                assert(scopes_view(scopes@)[a] == j);
                            }
                        }
                    }
                    assert forall|j: int| 0 <= j < p.len() && (#[trigger] p[j]) is Jump implies !scopes_view(scopes@).contains(p[j]->Jump_0) by {
                        let t = p[j]->Jump_0;
                        assert(before[j] == p[j]);
                        if scopes_view(scopes@).contains(t) {
                            let a = choose|a: int| 0 <= a < scopes_view(scopes@).len() && scopes_view(scopes@)[a] == t;
                            if a < sv.len() {
                                assert(sv[a] == t);
                            }
                        }
                    }
                }
            },
            TokenKind::It => {
                if scopes.len() == 0 {
                    assert(compile_from(toks, rows@, floats@, i as int, cur) is Err);
                    assert(compile_from(toks, rows@, floats@, 0, init) is Err);
                    return Err(at_position("`it` outside of a range", token.line, token.col));
                }
                program.push(Operation::It);
            },
            TokenKind::Do => {},
            TokenKind::End => {
                match scopes.pop() {
                    Some(pos) => {
                        let end = program.len() + 1;
                        let value = match &program[pos] {
                            Operation::Range { value, .. } => *value,
                            _ => 0,
                        };
                        program.set(pos, Operation::Range { value, end });
                        program.push(Operation::Jump(pos));
                        proof {
                            let p = ops_view(program@);
                            let s2 = scopes_view(scopes@);
                            assert(s2 =~= sv.drop_last());
                            assert(sv.last() == pos as int);
                            assert(p =~= before.update(pos as int, OpView::Range { value: before[pos as int]->value, end: end as int }).push(OpView::Jump(pos as int)));
                            assert(!s2.contains(pos as int)) by {
                                if s2.contains(pos as int) {
                                    let a = choose|a: int| 0 <= a < s2.len() && s2[a] == pos as int;
                                    assert(sv[a] < sv[sv.len() - 1]);
                                }
                            }
                            assert forall|a: int| 0 <= a < s2.len() implies 0 <= #[trigger] s2[a] < p.len() && p[s2[a]] is Range by {
                                assert(sv[a] == s2[a]);
                                assert(sv[a] < sv[sv.len() - 1]);
                            }
                            assert forall|j: int| 0 <= j < p.len() && (#[trigger] p[j]) is Range && !s2.contains(j)
                                implies j < p[j]->end <= p.len() by {
                                if j != pos {
                                    assert(p[j] == before[j]);
                                    assert(!sv.contains(j)) by {
                                        if sv.contains(j) {
                                            let a = choose|a: int| 0 <= a < sv.len() && sv[a] == j;
                                            assert(a != sv.len() - 1);
                                            assert(s2[a] == j);
                                        }
                                    }
                                }
                            }
                            assert forall|j: int| 0 <= j < p.len() && (#[trigger] p[j]) is Jump implies ({
                                let t = p[j]->Jump_0;
                                &&& 0 <= t < j
                                &&& p[t] is Range
                                &&& p[t]->end == j + 1
                                &&& !s2.contains(t)
                            }) by {
                                if j < before.len() {
                                    assert(p[j] == before[j]);
                                    let t = before[j]->Jump_0;
                                    assert(!sv.contains(t));
                                    assert(t != pos) by {
                                        assert(sv.contains(pos as int)) by {
                                            assert(sv[sv.len() - 1] == pos as int);
                                        }
                                    }
                                    assert(p[t] == before[t]);
                                    assert(!s2.contains(t)) by {
                                        if s2.contains(t) {
                                            let a = choose|a: int| 0 <= a < s2.len() && s2[a] == t;
                                            assert(sv[a] == t);
                                        }
                                    }
                                }
                            }
                        }
                    },
                    None => {
                        assert(compile_from(toks, rows@, floats@, i as int, cur) is Err);
                        assert(compile_from(toks, rows@, floats@, 0, init) is Err);
                        return Err(at_position("Unexpected end without a matching range", token.line, token.col));
                    },
                }
            },
            TokenKind::Word => {
                assert(compile_from(toks, rows@, floats@, i as int, cur) == Err::<CompileState, int>(i as int));
                assert(compile_from(toks, rows@, floats@, 0, init) is Err);
                let place = at_position("`", token.line, token.col);
                let mut e = String::from_str("Unexpected word `");
                e.append(token.word.as_str());
                e.append(place.as_str());
                assert(e@ == "Unexpected word `"@ + toks[i as int].word + place@);
                return Err(e);
            },
        }
        i = i + 1;
        proof {
            let p = ops_view(program@);
            if token.kind != TokenKind::Range && token.kind != TokenKind::End && token.kind != TokenKind::Do {
                assert(scopes_view(scopes@) == sv);
                assert(p =~= before.push(p.last()));
                assert forall|j: int| 0 <= j < p.len() && (#[trigger] p[j]) is Jump implies !sv.contains(p[j]->Jump_0) by {
                    assert(p[j] == before[j]);
                }
            }
        }
    }
    let ghost st = CompileState { prog: ops_view(program@), scopes: scopes_view(scopes@) };
    program.push(Operation::End);
    let n = program.len();
    let ghost ended = ops_view(program@);
    let mut k: usize = 0;
    while k < scopes.len()
        invariant
            k <= scopes@.len(),
            st.scopes == scopes_view(scopes@),
            compiling(st),
            ended == st.prog.push(OpView::End),
            n == ended.len(),
            program@.len() == n,
            ops_view(program@) == ended.map(
                |j: int, op: OpView|
                    if scopes_view(scopes@).subrange(0, k as int).contains(j) {
                        OpView::Range { value: op->value, end: n as int }
                    } else {
                        op
                    },
            ),
        decreases scopes@.len() - k,
    {
        let pos = scopes[k];
        assert(st.scopes[k as int] == pos as int);
        proof {
            let sk = scopes_view(scopes@).subrange(0, k as int);
            assert(!sk.contains(pos as int)) by {
                if sk.contains(pos as int) {
                    let a = choose|a: int| 0 <= a < sk.len() && sk[a] == pos as int;
                    assert(st.scopes[a] < st.scopes[k as int]);
                }
            }
            assert(ops_view(program@)[pos as int] == ended[pos as int]);
            assert(ended[pos as int] == st.prog[pos as int]);
        }
        let value = match &program[pos] {
            Operation::Range { value, .. } => *value,
            _ => 0,
        };
        let ghost prev = ops_view(program@);
        assert(value == ended[pos as int]->value);
        program.set(pos, Operation::Range { value, end: n });
        proof {
            let sk = scopes_view(scopes@).subrange(0, k as int);
            let sk1 = scopes_view(scopes@).subrange(0, k + 1);
            assert(ops_view(program@) =~= prev.update(pos as int, OpView::Range { value, end: n as int }));
            assert(sk1 =~= sk.push(pos as int));
            assert forall|j: int| 0 <= j < n implies ops_view(program@)[j] == (if sk1.contains(j) {
                OpView::Range { value: ended[j]->value, end: n as int }
            } else {
                ended[j]
            }) by {
                if j == pos as int {
                    assert(sk1[k as int] == j);
                } else {
                    assert(ops_view(program@)[j] == prev[j]);
                    assert(prev[j] == (if sk.contains(j) {
                        OpView::Range { value: ended[j]->value, end: n as int }
                    } else {
                        ended[j]
                    }));
                    if sk1.contains(j) {
                        let a = choose|a: int| 0 <= a < sk1.len() && sk1[a] == j;
                        assert(a < k);
                        assert(sk[a] == j);
                    }
                    if sk.contains(j) {
                        let a = choose|a: int| 0 <= a < sk.len() && sk[a] == j;
                        assert(sk1[a] == j);
                    }
                }
            }
            assert(ops_view(program@) =~= ended.map(
                |j: int, op: OpView|
                    if sk1.contains(j) {
                        OpView::Range { value: op->value, end: n as int }
                    } else {
                        op
                    },
            ));
        }
        k = k + 1;
    }
    proof {
        assert(scopes_view(scopes@).subrange(0, k as int) =~= st.scopes);
        assert(ops_view(program@) =~= finish(st));
        lemma_finish_wf(st);
    }
    Ok(program)
}


/// The generator of `random` (its `Default`), carried through opaquely.
#[verifier::external_type_specification]
#[verifier::external_body]
pub struct ExXorshift128Plus(random::Xorshift128Plus);

/// Relies on `random::Source::read_u64` of `Xorshift128Plus`: the generator's next
/// number, which may be any `u64`.
#[verifier::external_body]
fn next_row(source: &mut random::Xorshift128Plus) -> u64 {
    source.read_u64()
}

/// Whether a token is an identity whose row is `_`.
fn asks_for_row(t: &Token) -> (r: bool)
    ensures
        r == wants_draw(t@),
{
    if t.kind != TokenKind::Id {
        return false;
    }
    let w = chars_of(t.word.as_str());
    let n = w.len();
    if count_char(&w, ':') != 1 {
        return false;
    }
    let p = find_either(&w, 0, n, ':', ':');
    assert(w@.subrange(0, n as int) =~= w@);
    if p == n {
        proof {
            lemma_first_absent(w@, ':');
        }
        return false;
    }
    proof {
        reveal_strlit("_");
    }
    if n - p == 2 && w[p + 1] == '_' {
        assert(w@.subrange(p + 1, n as int) =~= "_"@);
        true
    } else {
        assert(w@.subrange(p + 1, n as int) != "_"@) by {
            assert("_"@.len() == 1 && "_"@[0] == '_');
            if n - p == 2 {
                assert(w@.subrange(p + 1, n as int)[0] == w@[p + 1]);
            }
        }
        false
    }
}

/// Compiles query text into a program. Each identity `@table:_` gets the next row
/// of `source`, one generator that may serve every query of a process, in the order
/// of the text; each float literal gets the bit pattern that `float_bits` gives for
/// its text.
pub fn parse<F: Fn(&str) -> u64>(
    contents: String,
    source: &mut random::Xorshift128Plus,
    float_bits: F,
) -> (r: Result<Program, String>)
    requires
        contents@.len() < usize::MAX,
        forall|s: &str| float_bits.requires((s,)),
    ensures
        lex(contents@).len() < usize::MAX - 2 ==> exists|rows: Seq<u64>, floats: Seq<u64>|
            {
                &&& rows.len() == lex(contents@).len()
                &&& floats.len() == lex(contents@).len()
                &&& forall|k: int|
                    0 <= k < floats.len() && #[trigger] lex(contents@)[k].kind == TokenKind::Float ==> exists|s: &str|
                        s@ == lex(contents@)[k].word && #[trigger] float_bits.ensures((s,), floats[k])
                &&& match #[trigger] compile_spec(lex(contents@), rows, floats) {
                    Ok(p) => r matches Ok(q) && ops_view(q@) == p,
                    Err(k) => r matches Err(e) && names_fault(lex(contents@), k, e@),
                }
            },
        lex(contents@).len() >= usize::MAX - 2 ==> r is Err,
        r matches Ok(q) ==> wf_program(ops_view(q@)),
{
    let ghost text = contents@;
    let tokens = match tokenize(contents) {
        Ok(t) => t,
        Err(e) => {
            return Err(e);
        },
    };
    if tokens.len() >= usize::MAX - 2 {
        return Err(String::from_str("Query too long"));
    }
    let mut rows: Vec<u64> = Vec::new();
    let mut floats: Vec<u64> = Vec::new();
    let mut k: usize = 0;
    while k < tokens.len()
        invariant
            k <= tokens@.len(),
            rows@.len() == k,
            floats@.len() == k,
            forall|s: &str| float_bits.requires((s,)),
            forall|j: int|
                0 <= j < k && #[trigger] tokens@[j].kind == TokenKind::Float ==> exists|s: &str|
                    s@ == tokens@[j].word@ && #[trigger] float_bits.ensures((s,), floats@[j]),
        decreases tokens@.len() - k,
    {
        let t = &tokens[k];
        if asks_for_row(t) {
            rows.push(next_row(source));
        } else {
            rows.push(0);
        }
        let ghost old_f = floats@;
        if t.kind == TokenKind::Float {
            let s = t.word.as_str();
            let b = float_bits(s);
            floats.push(b);
            proof {
                assert(floats@[k as int] == b);
                assert(float_bits.ensures((s,), floats@[k as int]));
                assert forall|j: int| 0 <= j < k + 1 && #[trigger] tokens@[j].kind == TokenKind::Float implies exists|x: &str|
                    x@ == tokens@[j].word@ && #[trigger] float_bits.ensures((x,), floats@[j]) by {
                    if j < k {
                        assert(floats@[j] == old_f[j]);
                    } else {
                        assert(s@ == tokens@[j].word@);
                    }
                }
            }
        } else {
            floats.push(0);
            proof {
                assert forall|j: int| 0 <= j < k + 1 && #[trigger] tokens@[j].kind == TokenKind::Float implies exists|x: &str|
                    x@ == tokens@[j].word@ && #[trigger] float_bits.ensures((x,), floats@[j]) by {
                    assert(j < k);
                    assert(floats@[j] == old_f[j]);
                }
            }
        }
        k = k + 1;
    }
    proof {
        assert(tokens_view(tokens@).len() == tokens@.len());
        assert forall|j: int| 0 <= j < floats@.len() && #[trigger] lex(text)[j].kind == TokenKind::Float implies exists|x: &str|
            x@ == lex(text)[j].word && #[trigger] float_bits.ensures((x,), floats@[j]) by {
            assert(lex(text)[j] == tokens@[j]@);
            assert(tokens@[j].kind == TokenKind::Float);
        }
    }
    let r = compile(&tokens, &rows, &floats);
    assert(lex(text) == tokens_view(tokens@));
    assert(match compile_spec(lex(text), rows@, floats@) {
        Ok(p) => r matches Ok(q) && ops_view(q@) == p,
        Err(k) => r matches Err(e) && names_fault(lex(text), k, e@),
    });
    r
}

} // verus!
