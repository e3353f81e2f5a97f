//! The values that constant expansion works with: definitions, expansion
//! steps and results, and the BSV type functions.
use vstd::prelude::*;

use crate::position::Range;
use crate::numbers::{char_is_numeric, char_numeric, i64_parse, parse_int_radix};
use crate::text::{
    append_str, before_first, before_first_exec, char_is_whitespace, chars_eq, chars_of, decimal,
    first_index_exec, first_index_of, i64_decimal, is_ws, join_lines, push_all, push_str,
    slice_chars, split_on, split_on_exec, str_eq, string_of, trim, trim_chars,
};

verus! {

/// A constant definition parsed from `#define`.
#[derive(Debug, Clone)]
pub struct ConstantDef {
    /// The name of the constant (e.g. `FOO`).
    pub name: String,
    /// The value or expression (e.g. `2` or `TAdd#(FOO, 1)`).
    pub value: String,
    /// Where the `#define` stands in the source.
    pub range: Range,
    /// Whether the value is a plain number.
    pub is_simple: bool,
}

/// A single step in the expansion process.
#[derive(Debug, Clone)]
pub struct ExpansionStep {
    /// The expression at this step.
    pub expression: String,
    /// What happened at this step.
    pub description: Option<String>,
    /// The value after this step, when it is known.
    pub value: Option<i64>,
    /// Whether this step is a reference to a constant.
    pub is_constant_ref: bool,
    /// For constant references, the definition they stand for.
    pub original_definition: Option<String>,
}

/// The result of expanding a constant.
#[derive(Debug, Clone)]
pub struct ExpansionResult {
    /// The constant's name.
    pub name: String,
    /// The computed value.
    pub final_value: i64,
    /// The steps that led to the value.
    pub steps: Vec<ExpansionStep>,
    /// Whether the expansion succeeded.
    pub success: bool,
    /// Why the expansion failed, when it did.
    pub error: Option<String>,
}

/// An operation found in an expansion step: the type function's name and its
/// arguments, resolved to numbers where that is possible.
pub struct OperationInfo {
    pub op_type: Vec<char>,
    pub args: Vec<Vec<char>>,
}

pub ghost struct SpecOperation {
    pub op_type: Seq<char>,
    pub args: Seq<Seq<char>>,
}

/// The character sequences that the vectors `v` hold.
pub open spec fn vecs_view(v: Seq<Vec<char>>) -> Seq<Seq<char>> {
    Seq::new(v.len(), |i: int| v[i]@)
}

impl OperationInfo {
    pub open spec fn view(&self) -> SpecOperation {
        SpecOperation { op_type: self.op_type@, args: vecs_view(self.args@) }
    }
}

/// `c` occurs in `s`.
pub open spec fn has_char(s: Seq<char>, c: char) -> bool {
    first_index_of(s, c) < s.len()
}

/// Every character is numeric or white space.
pub open spec fn all_numeric_or_ws(s: Seq<char>) -> bool {
    forall|i: int| 0 <= i < s.len() ==> char_numeric(s[i]) || is_ws(s[i])
}

/// `"{a} = {b}"`.
pub open spec fn equation(a: Seq<char>, b: Seq<char>) -> Seq<char> {
    a + " = "@ + b
}

/// The trace line for one constant-reference step, if it gets one.
pub open spec fn ref_line(step: ExpansionStep) -> Seq<Seq<char>> {
    let const_name = trim(before_first(step.expression@, '='));
    match step.original_definition {
        Some(d) => seq!["├─ "@ + equation(const_name, d@)],
        None => match step.value {
            Some(v) => seq!["├─ "@ + equation(const_name, decimal(v as int))],
            None => seq![],
        },
    }
}

/// The trace lines of the constant-reference steps among `steps`, from the
/// last step to the first.
pub open spec fn ref_lines(steps: Seq<ExpansionStep>) -> Seq<Seq<char>>
    decreases steps.len(),
{
    if steps.len() == 0 {
        seq![]
    } else {
        (if steps.last().is_constant_ref {
            ref_line(steps.last())
        } else {
            seq![]
        }) + ref_lines(steps.drop_last())
    }
}

/// The value that the last constant-reference step named `name` gives, when
/// its expression is `name = ...` with one `=` and the step has a value.
pub open spec fn const_value_of(steps: Seq<ExpansionStep>, name: Seq<char>) -> Option<
    Seq<char>,
>
    decreases steps.len(),
{
    if steps.len() == 0 {
        None
    } else {
        let s = steps.last();
        let parts = split_on(s.expression@, '=');
        if s.value is Some && s.is_constant_ref && parts.len() == 2 && trim(parts[0]) == name {
            Some(decimal(s.value->0 as int))
        } else {
            const_value_of(steps.drop_last(), name)
        }
    }
}

/// How one argument of a type function is shown: as the number it reads as,
/// as the value of the constant it names, or as written.
pub open spec fn resolved_arg(steps: Seq<ExpansionStep>, arg: Seq<char>) -> Seq<char> {
    match parse_int_radix(arg, 10) {
        Some(n) => decimal(n),
        None => match const_value_of(steps, arg) {
            Some(v) => v,
            None => arg,
        },
    }
}

/// The text between the first `(` and the first `)` of `expr`, when both
/// are there.
pub open spec fn arg_text(expr: Seq<char>) -> Option<Seq<char>> {
    let a = first_index_of(expr, '(');
    let b = first_index_of(expr, ')');
    if a < expr.len() && b < expr.len() {
        Some(expr.subrange(a + 1, b))
    } else {
        None
    }
}

/// The argument list can be cut out of `expr`: a `)` never comes first.
pub open spec fn args_sliceable(expr: Seq<char>) -> bool {
    let a = first_index_of(expr, '(');
    let b = first_index_of(expr, ')');
    a < expr.len() && b < expr.len() ==> a + 1 <= b
}

/// The resolved forms of the arguments `pieces`, each trimmed.
pub open spec fn resolved_args(steps: Seq<ExpansionStep>, pieces: Seq<Seq<char>>) -> Seq<Seq<char>> {
    Seq::new(pieces.len(), |i: int| resolved_arg(steps, trim(pieces[i])))
}

/// The resolved arguments of the type function in `expr`.
pub open spec fn numeric_args(steps: Seq<ExpansionStep>, expr: Seq<char>) -> Option<
    Seq<Seq<char>>,
> {
    match arg_text(expr) {
        Some(t) => Some(resolved_args(steps, split_on(t, ','))),
        None => None,
    }
}

/// The operation that the step `step` shows, if any.
pub open spec fn operation_of(steps: Seq<ExpansionStep>, step: ExpansionStep) -> Option<
    SpecOperation,
> {
    match numeric_args(steps, step.expression@) {
        Some(args) => Some(SpecOperation { op_type: before_first(step.expression@, '#'), args }),
        None => None,
    }
}

/// The operations of the first `n` steps that hold a `#` and a value.
pub open spec fn operations_upto(steps: Seq<ExpansionStep>, n: int) -> Seq<SpecOperation>
    decreases n,
{
    if n <= 0 {
        seq![]
    } else {
        let s = steps[n - 1];
        let rest = operations_upto(steps, n - 1);
        if has_char(s.expression@, '#') && s.value is Some {
            match operation_of(steps, s) {
                Some(op) => rest.push(op),
                None => rest,
            }
        } else {
            rest
        }
    }
}

/// `"{a}{op}{b}"`.
pub open spec fn infix(a: Seq<char>, op: Seq<char>, b: Seq<char>) -> Seq<char> {
    a + op + b
}

/// `"{f}({a},{b})"`.
pub open spec fn call2(f: Seq<char>, a: Seq<char>, b: Seq<char>) -> Seq<char> {
    f + "("@ + a + ","@ + b + ")"@
}

/// The expression for a lone operation, if it has a form of its own.
pub open spec fn single_op_text(op: SpecOperation) -> Option<Seq<char>> {
    let n = op.args.len();
    if op.op_type == "TMax"@ && n >= 2 {
        Some(call2("max"@, op.args[0], op.args[1]))
    } else if op.op_type == "TMin"@ && n >= 2 {
        Some(call2("min"@, op.args[0], op.args[1]))
    } else if op.op_type == "TAdd"@ && n >= 2 {
        Some(infix(op.args[0], "+"@, op.args[1]))
    } else if op.op_type == "TSub"@ && n >= 2 {
        Some(infix(op.args[0], "-"@, op.args[1]))
    } else if op.op_type == "TMul"@ && n >= 2 {
        Some(infix(op.args[0], "*"@, op.args[1]))
    } else if op.op_type == "TDiv"@ && n >= 2 {
        Some(infix(op.args[0], "/"@, op.args[1]))
    } else if op.op_type == "TLog"@ && n >= 1 {
        Some("log2("@ + op.args[0] + ")"@)
    } else if op.op_type == "TExp"@ && n >= 1 {
        Some("2^"@ + op.args[0])
    } else {
        None
    }
}

/// `expr` after one operation of a chain has been applied to it.
pub open spec fn chain_step(expr: Seq<char>, op: SpecOperation) -> Seq<char> {
    let n = op.args.len();
    if op.op_type == "TAdd"@ && n >= 2 {
        "("@ + infix(expr, "+"@, op.args[1]) + ")"@
    } else if op.op_type == "TSub"@ && n >= 2 {
        "("@ + infix(expr, "-"@, op.args[1]) + ")"@
    } else if op.op_type == "TMul"@ && n >= 2 {
        infix(expr, "*"@, op.args[1])
    } else if op.op_type == "TDiv"@ && n >= 2 {
        infix(expr, "/"@, op.args[1])
    } else if op.op_type == "TMax"@ && n >= 2 {
        call2("max"@, op.args[0], op.args[1])
    } else if op.op_type == "TMin"@ && n >= 2 {
        call2("min"@, op.args[0], op.args[1])
    } else {
        expr
    }
}

/// `expr` after the first `n` operations of `ops` have been applied.
pub open spec fn chain(expr: Seq<char>, ops: Seq<SpecOperation>, n: int) -> Seq<char>
    decreases n,
{
    if n <= 0 {
        expr
    } else {
        chain_step(chain(expr, ops, n - 1), ops[n - 1])
    }
}

/// The calculation shown on the `Result` line of a trace (empty when there
/// is none).
pub open spec fn calculation(r: ExpansionResult) -> Seq<char> {
    let steps = r.steps@;
    let ops = operations_upto(steps, steps.len() as int);
    if steps.len() <= 2 || ops.len() == 0 {
        seq![]
    } else if ops.len() == 1 && single_op_text(ops[0]) is Some {
        single_op_text(ops[0])->0
    } else {
        let start = if ops[0].args.len() > 0 {
            ops[0].args[0]
        } else {
            decimal(r.final_value as int)
        };
        chain(start, ops, ops.len() as int)
    }
}

/// Every character of `s` is an ASCII digit or white space.
pub open spec fn ascii_digits_or_ws(s: Seq<char>) -> bool {
    forall|i: int| 0 <= i < s.len() ==> ('0' <= #[trigger] s[i] <= '9') || is_ws(s[i])
}

/// The trace of the result is its first line alone: there are no steps, or
/// at most two whose first is a plain decimal number.
pub open spec fn short_numeric_form(r: ExpansionResult) -> bool {
    r.steps@.len() == 0 || (r.steps@.len() <= 2 && ascii_digits_or_ws(
        trim(r.steps@[0].expression@),
    ))
}

proof fn lemma_no_operations(steps: Seq<ExpansionStep>, n: int)
    requires
        n <= steps.len(),
        forall|i: int|
            0 <= i < steps.len() ==> !(has_char(#[trigger] steps[i].expression@, '#')
                && steps[i].value is Some),
    ensures
        operations_upto(steps, n).len() == 0,
    decreases n,
{
    if n > 0 {
        lemma_no_operations(steps, n - 1);
        assert(!(has_char(steps[n - 1].expression@, '#') && steps[n - 1].value is Some));
    }
}

/// A result with at most two steps, or with no evaluated step that applies
/// a type function (a step holding `#` and a value), has no calculation to
/// show: its `Result` line is left out of the trace.
pub proof fn no_calculation_without_evaluated_functions(r: ExpansionResult)
    requires
        r.steps@.len() <= 2 || forall|i: int|
            0 <= i < r.steps@.len() ==> !(has_char(#[trigger] r.steps@[i].expression@, '#')
                && r.steps@[i].value is Some),
    ensures
        calculation(r).len() == 0,
{
    if r.steps@.len() > 2 {
        lemma_no_operations(r.steps@, r.steps@.len() as int);
    }
}

/// The first step's expression is a plain number.
pub open spec fn first_is_numeric(r: ExpansionResult) -> bool {
    r.steps@.len() > 0 && all_numeric_or_ws(trim(r.steps@[0].expression@))
}

/// The lines of the trace of a successful expansion.
pub open spec fn trace_lines(r: ExpansionResult) -> Seq<Seq<char>> {
    let head = seq![equation(r.name@, decimal(r.final_value as int))];
    if first_is_numeric(r) && r.steps@.len() <= 2 {
        head
    } else {
        let first_expr = trim(r.steps@[0].expression@);
        let with_def = if r.steps@.len() > 0 && first_expr != decimal(r.final_value as int)
            && !all_numeric_or_ws(first_expr) {
            head.push(equation(r.name@, first_expr))
        } else {
            head
        };
        let calc = calculation(r);
        let result_line = if calc.len() > 0 && calc != decimal(r.final_value as int) {
            seq!["└─ Result: "@ + equation(calc, decimal(r.final_value as int))]
        } else if calc.len() > 0 {
            seq!["└─ Result: "@ + decimal(r.final_value as int)]
        } else {
            seq![]
        };
        with_def + ref_lines(r.steps@) + result_line
    }
}

/// The trace `format_trace` writes.
pub open spec fn trace_text(r: ExpansionResult) -> Seq<char> {
    if !r.success {
        match r.error {
            Some(e) => "❌ Expansion failed: "@ + e@,
            None => "❌ Expansion failed"@,
        }
    } else {
        join_lines(trace_lines(r))
    }
}

/// A successful result's trace can be built: see `steps_sliceable`.
pub open spec fn trace_defined(r: ExpansionResult) -> bool {
    r.success ==> steps_sliceable(r)
}

/// Past the second step, every step that applies a type function and has a
/// value has an argument list that can be cut out.
pub open spec fn steps_sliceable(r: ExpansionResult) -> bool {
    r.steps@.len() > 2 ==> forall|i: int|
        0 <= i < r.steps@.len() && has_char(r.steps@[i].expression@, '#')
            && r.steps@[i].value is Some ==> args_sliceable(#[trigger] r.steps@[i].expression@)
}

impl ExpansionStep {
    /// A copy of this step.
    pub fn duplicate(&self) -> (r: ExpansionStep)
        ensures
            r == *self,
    {
        ExpansionStep {
            expression: self.expression.clone(),
            description: match &self.description {
                Some(d) => Some(d.clone()),
                None => None,
            },
            value: self.value,
            is_constant_ref: self.is_constant_ref,
            original_definition: match &self.original_definition {
                Some(d) => Some(d.clone()),
                None => None,
            },
        }
    }
}

fn push_line(out: &mut Vec<char>, lines: Ghost<Seq<Seq<char>>>, line: &[char])
    requires
        lines@.len() > 0,
        old(out)@ == join_lines(lines@),
    ensures
        final(out)@ == join_lines(lines@.push(line@)),
{
    out.push('\n');
    push_all(out, line);
    proof {
        let l2 = lines@.push(line@);
        assert(l2.drop_last() =~= lines@);
    }
}

fn equation_exec(a: &[char], b: &[char]) -> (r: Vec<char>)
    ensures
        r@ == equation(a@, b@),
{
    let mut r: Vec<char> = Vec::new();
    push_all(&mut r, a);
    push_str(&mut r, " = ");
    push_all(&mut r, b);
    r
}

fn all_numeric_or_ws_exec(s: &[char]) -> (r: bool)
    ensures
        r == all_numeric_or_ws(s@),
        ascii_digits_or_ws(s@) ==> r,
{
    let mut i: usize = 0;
    while i < s.len()
        invariant
            i <= s@.len(),
            forall|k: int| 0 <= k < i ==> char_numeric(s@[k]) || is_ws(s@[k]),
        decreases s@.len() - i,
    {
        if !(char_is_numeric(s[i]) || char_is_whitespace(s[i])) {
            assert(!('0' <= s@[i as int] <= '9' || is_ws(s@[i as int])));
            return false;
        }
        i = i + 1;
    }
    true
}

proof fn lemma_join_lines_head(ls: Seq<Seq<char>>)
    requires
        ls.len() > 0,
    ensures
        join_lines(ls).len() >= ls[0].len(),
        join_lines(ls).take(ls[0].len() as int) == ls[0],
        ls.len() == 1 ==> join_lines(ls) == ls[0],
        ls.len() > 1 ==> join_lines(ls).len() > ls[0].len() && join_lines(ls)[ls[0].len() as int]
            == '\n',
    decreases ls.len(),
{
    if ls.len() > 1 {
        let d = ls.drop_last();
        lemma_join_lines_head(d);
        assert(d[0] == ls[0]);
        let j = join_lines(ls);
        assert(j == join_lines(d) + seq!['\n'] + ls.last());
        assert(j.take(ls[0].len() as int) =~= join_lines(d).take(ls[0].len() as int));
        if d.len() == 1 {
            assert(j[ls[0].len() as int] == '\n');
        } else {
            assert(j[ls[0].len() as int] == join_lines(d)[ls[0].len() as int]);
        }
    } else {
        assert(ls[0].take(ls[0].len() as int) =~= ls[0]);
    }
}

/// The trace of a successful expansion starts with the line
/// `name = value`, which ends the text or is followed by a newline.
pub proof fn trace_starts_with_value(r: ExpansionResult)
    requires
        r.success,
    ensures
        crate::text::starts_with(trace_text(r), equation(r.name@, decimal(r.final_value as int))),
        trace_text(r).len() == equation(r.name@, decimal(r.final_value as int)).len()
            || trace_text(r)[equation(r.name@, decimal(r.final_value as int)).len() as int]
            == '\n',
{
    let head = equation(r.name@, decimal(r.final_value as int));
    let ls = trace_lines(r);
    assert(ls.len() > 0 && ls[0] == head) by {
        if !(first_is_numeric(r) && r.steps@.len() <= 2) {
            let first_expr = trim(r.steps@[0].expression@);
            let with_def = if r.steps@.len() > 0 && first_expr != decimal(r.final_value as int)
                && !all_numeric_or_ws(first_expr) {
                seq![head].push(equation(r.name@, first_expr))
            } else {
                seq![head]
            };
            assert(with_def[0] == head);
        }
    }
    lemma_join_lines_head(ls);
}

impl ExpansionResult {
    /// Formats the expansion as a trace for a hover: the constant and its
    /// value, the definition it came from, the constants it used, and the
    /// calculation that gave the value.
    pub fn format_trace(&self) -> (r: String)
        requires
            trace_defined(*self),
        ensures
            r@ == trace_text(*self),
            self.success && short_numeric_form(*self) ==> r@ == equation(
                self.name@,
                decimal(self.final_value as int),
            ),
    {
        if !self.success {
            let mut s = String::new();
            match &self.error {
                Some(e) => {
                    append_str(&mut s, "❌ Expansion failed: ");
                    append_str(&mut s, e.as_str());
                },
                None => {
                    append_str(&mut s, "❌ Expansion failed");
                },
            }
            return s;
        }
        let name = chars_of(self.name.as_str());
        let fv = i64_decimal(self.final_value);
        let mut out = equation_exec(&name, &fv);
        let ghost lines: Seq<Seq<char>> = seq![equation(self.name@, decimal(self.final_value as int))];
        assert(join_lines(lines) == out@);
        let first_numeric = if self.steps.len() > 0 {
            let e = chars_of(self.steps[0].expression.as_str());
            let t = trim_chars(&e);
            all_numeric_or_ws_exec(&t)
        } else {
            false
        };
        if first_numeric && self.steps.len() <= 2 {
            return string_of(&out);
        }
        proof {
            if self.steps@.len() == 0 {
                assert(calculation(*self) =~= Seq::<char>::empty());
                assert(ref_lines(self.steps@) =~= Seq::<Seq<char>>::empty());
                assert(trace_lines(*self) =~= lines);
            }
        }
        if self.steps.len() > 0 {
            let e = chars_of(self.steps[0].expression.as_str());
            let t = trim_chars(&e);
            if !chars_eq(&t, &fv) && !all_numeric_or_ws_exec(&t) {
                let l = equation_exec(&name, &t);
                push_line(&mut out, Ghost(lines), &l);
                proof {
                    lines = lines.push(l@);
                }
            }
        }
        let ghost with_def = lines;
        let mut i = self.steps.len();
        assert(self.steps@.take(i as int) =~= self.steps@);
        while i > 0
            invariant
                i <= self.steps@.len(),
                lines.len() > 0,
                out@ == join_lines(lines),
                with_def + ref_lines(self.steps@) == lines + ref_lines(self.steps@.take(i as int)),
            decreases i,
        {
            let step = &self.steps[i - 1];
            proof {
                let t = self.steps@.take(i as int);
                assert(t.last() == self.steps@[i - 1]);
                assert(t.drop_last() =~= self.steps@.take(i - 1));
            }
            if step.is_constant_ref {
                let e = chars_of(step.expression.as_str());
                let before = before_first_exec(&e, '=');
                let cname = trim_chars(&before);
                match &step.original_definition {
                    Some(d) => {
                        let mut l: Vec<char> = Vec::new();
                        push_str(&mut l, "├─ ");
                        let dc = chars_of(d.as_str());
                        let eq = equation_exec(&cname, &dc);
                        push_all(&mut l, &eq);
                        push_line(&mut out, Ghost(lines), &l);
                        proof {
                            assert(ref_line(*step) == seq![l@]);
                            assert(lines + (seq![l@] + ref_lines(self.steps@.take(i - 1))) =~= lines.push(l@)
                                + ref_lines(self.steps@.take(i - 1)));
                            lines = lines.push(l@);
                        }
                    },
                    None => {
                        match step.value {
                            Some(v) => {
                                let mut l: Vec<char> = Vec::new();
                                push_str(&mut l, "├─ ");
                                let vc = i64_decimal(v);
                                let eq = equation_exec(&cname, &vc);
                                push_all(&mut l, &eq);
                                push_line(&mut out, Ghost(lines), &l);
                                proof {
                                    assert(ref_line(*step) == seq![l@]);
                                    assert(lines + (seq![l@] + ref_lines(self.steps@.take(i - 1)))
                                        =~= lines.push(l@) + ref_lines(self.steps@.take(i - 1)));
                                    lines = lines.push(l@);
                                }
                            },
                            None => {
                                assert(seq![] + ref_lines(self.steps@.take(i - 1)) =~= ref_lines(
                                    self.steps@.take(i - 1),
                                ));
                            },
                        }
                    },
                }
            } else {
                assert(seq![] + ref_lines(self.steps@.take(i - 1)) =~= ref_lines(
                    self.steps@.take(i - 1),
                ));
            }
            i = i - 1;
        }
        proof {
            assert(self.steps@.take(0) =~= Seq::<ExpansionStep>::empty());
            assert(lines + seq![] =~= lines);
        }
        let calc = self.build_calculation_expression();
        if calc.len() > 0 && !chars_eq(&calc, &fv) {
            let mut l: Vec<char> = Vec::new();
            push_str(&mut l, "└─ Result: ");
            let eq = equation_exec(&calc, &fv);
            push_all(&mut l, &eq);
            push_line(&mut out, Ghost(lines), &l);
            proof {
                lines = lines.push(l@);
            }
        } else if calc.len() > 0 {
            let mut l: Vec<char> = Vec::new();
            push_str(&mut l, "└─ Result: ");
            push_all(&mut l, &fv);
            push_line(&mut out, Ghost(lines), &l);
            proof {
                lines = lines.push(l@);
            }
        }
        proof {
            let r = *self;
            let calc_s = calculation(r);
            let result_line = if calc_s.len() > 0 && calc_s != decimal(r.final_value as int) {
                seq!["└─ Result: "@ + equation(calc_s, decimal(r.final_value as int))]
            } else if calc_s.len() > 0 {
                seq!["└─ Result: "@ + decimal(r.final_value as int)]
            } else {
                seq![]
            };
            assert(lines =~= with_def + ref_lines(self.steps@) + result_line);
        }
        string_of(&out)
    }

    /// The calculation for the `Result` line of the trace.
    fn build_calculation_expression(&self) -> (r: Vec<char>)
        requires
            steps_sliceable(*self),
        ensures
            r@ == calculation(*self),
    {
        if self.steps.len() <= 2 {
            return Vec::new();
        }
        let mut operations: Vec<OperationInfo> = Vec::new();
        let mut i: usize = 0;
        while i < self.steps.len()
            invariant
                i <= self.steps@.len(),
                self.steps@.len() > 2,
                steps_sliceable(*self),
                operations@.len() == operations_upto(self.steps@, i as int).len(),
                forall|k: int|
                    #![trigger operations@[k]]
                    0 <= k < operations@.len() ==> operations@[k].view() == operations_upto(
                        self.steps@,
                        i as int,
                    )[k],
            decreases self.steps@.len() - i,
        {
            let step = &self.steps[i];
            let e = chars_of(step.expression.as_str());
            let ghost old_ops = operations@;
            if has_char_exec(&e, '#') && step.value.is_some() {
                assert(args_sliceable(self.steps@[i as int].expression@));
                match self.extract_operation_info(step) {
                    Some(op) => {
                        operations.push(op);
                        assert forall|k: int|
                            #![trigger operations@[k]]
                            0 <= k < operations@.len() implies operations@[k].view()
                            == operations_upto(self.steps@, i + 1)[k] by {
                            if k < old_ops.len() {
                                assert(operations@[k] == old_ops[k]);
                            }
                        }
                    },
                    None => {},
                }
            }
            i = i + 1;
        }
        let ghost ops = operations_upto(self.steps@, self.steps@.len() as int);
        if operations.len() == 0 {
            return Vec::new();
        }
        if operations.len() == 1 {
            let op = &operations[0];
            assert(op.view() == ops[0]);
            let n = op.args.len();
            if is_name(&op.op_type, "TMax") && n >= 2 {
                return call2_exec("max", &op.args[0], &op.args[1]);
            }
            if is_name(&op.op_type, "TMin") && n >= 2 {
                return call2_exec("min", &op.args[0], &op.args[1]);
            }
            if is_name(&op.op_type, "TAdd") && n >= 2 {
                return infix_exec(&op.args[0], "+", &op.args[1]);
            }
            if is_name(&op.op_type, "TSub") && n >= 2 {
                return infix_exec(&op.args[0], "-", &op.args[1]);
            }
            if is_name(&op.op_type, "TMul") && n >= 2 {
                return infix_exec(&op.args[0], "*", &op.args[1]);
            }
            if is_name(&op.op_type, "TDiv") && n >= 2 {
                return infix_exec(&op.args[0], "/", &op.args[1]);
            }
            if is_name(&op.op_type, "TLog") && n >= 1 {
                let mut r: Vec<char> = Vec::new();
                push_str(&mut r, "log2(");
                push_all(&mut r, &op.args[0]);
                push_str(&mut r, ")");
                return r;
            }
            if is_name(&op.op_type, "TExp") && n >= 1 {
                let mut r: Vec<char> = Vec::new();
                push_str(&mut r, "2^");
                push_all(&mut r, &op.args[0]);
                return r;
            }
        }
        let mut expr: Vec<char> = if operations[0].args.len() > 0 {
            slice_chars(&operations[0].args[0], 0, operations[0].args[0].len())
        } else {
            i64_decimal(self.final_value)
        };
        proof {
            assert(operations@[0].view() == ops[0]);
            if operations@[0].args@.len() > 0 {
                assert(operations@[0].args@[0]@.subrange(0, operations@[0].args@[0]@.len() as int)
                    =~= operations@[0].args@[0]@);

            }
        }
        let ghost start = expr@;
        let mut j: usize = 0;
        while j < operations.len()
            invariant
                j <= operations@.len(),
                operations@.len() == ops.len(),
                forall|k: int|
                    #![trigger operations@[k]]
                    0 <= k < operations@.len() ==> operations@[k].view() == ops[k],
                expr@ == chain(start, ops, j as int),
            decreases operations@.len() - j,
        {
            let op = &operations[j];
            assert(op.view() == ops[j as int]);
            let n = op.args.len();

            if is_name(&op.op_type, "TAdd") && n >= 2 {
                let mut r: Vec<char> = Vec::new();
                push_str(&mut r, "(");
                let x = infix_exec(&expr, "+", &op.args[1]);
                push_all(&mut r, &x);
                push_str(&mut r, ")");
                expr = r;
            } else if is_name(&op.op_type, "TSub") && n >= 2 {
                let mut r: Vec<char> = Vec::new();
                push_str(&mut r, "(");
                let x = infix_exec(&expr, "-", &op.args[1]);
                push_all(&mut r, &x);
                push_str(&mut r, ")");
                expr = r;
            } else if is_name(&op.op_type, "TMul") && n >= 2 {
                expr = infix_exec(&expr, "*", &op.args[1]);
            } else if is_name(&op.op_type, "TDiv") && n >= 2 {
                expr = infix_exec(&expr, "/", &op.args[1]);
            } else if is_name(&op.op_type, "TMax") && n >= 2 {
                expr = call2_exec("max", &op.args[0], &op.args[1]);
            } else if is_name(&op.op_type, "TMin") && n >= 2 {
                expr = call2_exec("min", &op.args[0], &op.args[1]);
            }
            j = j + 1;
        }
        expr
    }

    /// The operation that `step` shows: its type function's name and its
    /// resolved arguments.
    fn extract_operation_info(&self, step: &ExpansionStep) -> (r: Option<OperationInfo>)
        requires
            args_sliceable(step.expression@),
        ensures
            r matches Some(op) ==> operation_of(self.steps@, *step) == Some(op.view()),
            r is None ==> operation_of(self.steps@, *step) is None,
    {
        let e = chars_of(step.expression.as_str());
        let func_name = before_first_exec(&e, '#');
        match self.extract_numeric_args(&e) {
            Some(args) => Some(OperationInfo { op_type: func_name, args }),
            None => None,
        }
    }

    /// The arguments of the type function in `expr`, each read as a number,
    /// looked up among the constant references, or kept as written.
    fn extract_numeric_args(&self, expr: &[char]) -> (r: Option<Vec<Vec<char>>>)
        requires
            args_sliceable(expr@),
        ensures
            r matches Some(a) ==> numeric_args(self.steps@, expr@) == Some(vecs_view(a@)),
            r is None ==> numeric_args(self.steps@, expr@) is None,
    {
        let start = first_index_exec(expr, 0, '(');
        let end = first_index_exec(expr, 0, ')');
        assert(expr@.skip(0) =~= expr@);
        if start == expr.len() || end == expr.len() {
            return None;
        }
        let args_str = slice_chars(expr, start + 1, end);
        let pieces = split_on_exec(&args_str, ',');
        let ghost ps = split_on(args_str@, ',');
        let mut out: Vec<Vec<char>> = Vec::new();
        let mut k: usize = 0;
        while k < pieces.len()
            invariant
                k <= pieces@.len(),
                pieces@.len() == ps.len(),
                forall|i: int| #![trigger pieces@[i]] 0 <= i < pieces@.len() ==> pieces@[i]@ == ps[i],
                out@.len() == k,
                forall|i: int|
                    #![trigger out@[i]]
                    0 <= i < k ==> out@[i]@ == resolved_arg(self.steps@, trim(ps[i])),
            decreases pieces@.len() - k,
        {
            let arg = trim_chars(&pieces[k]);
            let v = self.resolve_arg(&arg);
            assert(pieces@[k as int]@ == ps[k as int]);
            let ghost old_out = out@;
            out.push(v);
            assert forall|i: int| #![trigger out@[i]] 0 <= i < k + 1 implies out@[i]@
                == resolved_arg(self.steps@, trim(ps[i])) by {
                if i < k {
                    assert(out@[i] == old_out[i]);
                }
            }
            k = k + 1;
        }
        assert(vecs_view(out@) =~= resolved_args(self.steps@, ps));
        Some(out)
    }

    /// How one argument is shown.
    fn resolve_arg(&self, arg: &[char]) -> (r: Vec<char>)
        ensures
            r@ == resolved_arg(self.steps@, arg@),
    {
        let s = string_of(arg);
        match i64_parse(s.as_str()) {
            Ok(n) => i64_decimal(n),
            Err(_) => match self.const_value(arg) {
                Some(v) => v,
                None => slice_chars(arg, 0, arg.len()),
            },
        }
    }

    /// The value of the last constant-reference step that names `name`.
    fn const_value(&self, name: &[char]) -> (r: Option<Vec<char>>)
        ensures
            r matches Some(v) ==> const_value_of(self.steps@, name@) == Some(v@),
            r is None ==> const_value_of(self.steps@, name@) is None,
    {
        let mut i = self.steps.len();
        assert(self.steps@.take(i as int) =~= self.steps@);
        while i > 0
            invariant
                i <= self.steps@.len(),
                const_value_of(self.steps@, name@) == const_value_of(
                    self.steps@.take(i as int),
                    name@,
                ),
            decreases i,
        {
            let s = &self.steps[i - 1];
            proof {
                let t = self.steps@.take(i as int);
                assert(t.last() == self.steps@[i - 1]);
                assert(t.drop_last() =~= self.steps@.take(i - 1));
            }
            if s.value.is_some() && s.is_constant_ref {
                let e = chars_of(s.expression.as_str());
                let parts = split_on_exec(&e, '=');
                if parts.len() == 2 {
                    let p0 = trim_chars(&parts[0]);
                    if chars_eq(&p0, name) {
                        return Some(i64_decimal(s.value.unwrap()));
                    }
                }
            }
            i = i - 1;
        }
        None
    }
}

fn has_char_exec(s: &[char], c: char) -> (r: bool)
    ensures
        r == has_char(s@, c),
{
    let i = first_index_exec(s, 0, c);
    assert(s@.skip(0) =~= s@);
    i < s.len()
}

fn is_name(s: &[char], name: &str) -> (r: bool)
    ensures
        r == (s@ == name@),
{
    let n = chars_of(name);
    chars_eq(s, &n)
}

fn infix_exec(a: &[char], op: &str, b: &[char]) -> (r: Vec<char>)
    ensures
        r@ == infix(a@, op@, b@),
{
    let mut r: Vec<char> = Vec::new();
    push_all(&mut r, a);
    push_str(&mut r, op);
    push_all(&mut r, b);
    r
}

fn call2_exec(f: &str, a: &[char], b: &[char]) -> (r: Vec<char>)
    ensures
        r@ == call2(f@, a@, b@),
{
    let mut r: Vec<char> = Vec::new();
    push_str(&mut r, f);
    push_str(&mut r, "(");
    push_all(&mut r, a);
    push_str(&mut r, ",");
    push_all(&mut r, b);
    push_str(&mut r, ")");
    r
}

/// Supported type functions for constant evaluation.
#[allow(clippy::enum_variant_names)]
#[derive(Debug, Clone, Copy, PartialEq, Eq, Structural)]
pub enum TypeFunction {
    /// `TAdd#(a, b) = a + b`
    TAdd,
    /// `TSub#(a, b) = a - b`
    TSub,
    /// `TMul#(a, b) = a * b`
    TMul,
    /// `TDiv#(a, b) = a / b`
    TDiv,
    /// `TLog#(n)`: log2(n), rounded up
    TLog,
    /// `TExp#(n) = 2^n`
    TExp,
    /// `TMax#(a, b) = max(a, b)`
    TMax,
    /// `TMin#(a, b) = min(a, b)`
    TMin,
}

/// The type function a name stands for.
pub open spec fn type_function_named(name: Seq<char>) -> Option<TypeFunction> {
    if name == "TAdd"@ {
        Some(TypeFunction::TAdd)
    } else if name == "TSub"@ {
        Some(TypeFunction::TSub)
    } else if name == "TMul"@ {
        Some(TypeFunction::TMul)
    } else if name == "TDiv"@ {
        Some(TypeFunction::TDiv)
    } else if name == "TLog"@ {
        Some(TypeFunction::TLog)
    } else if name == "TExp"@ {
        Some(TypeFunction::TExp)
    } else if name == "TMax"@ {
        Some(TypeFunction::TMax)
    } else if name == "TMin"@ {
        Some(TypeFunction::TMin)
    } else {
        None
    }
}

/// The name of a type function.
pub open spec fn type_function_name(f: TypeFunction) -> Seq<char> {
    match f {
        TypeFunction::TAdd => "TAdd"@,
        TypeFunction::TSub => "TSub"@,
        TypeFunction::TMul => "TMul"@,
        TypeFunction::TDiv => "TDiv"@,
        TypeFunction::TLog => "TLog"@,
        TypeFunction::TExp => "TExp"@,
        TypeFunction::TMax => "TMax"@,
        TypeFunction::TMin => "TMin"@,
    }
}

/// `2^e`.
pub open spec fn two_pow(e: nat) -> int
    decreases e,
{
    if e == 0 {
        1
    } else {
        2 * two_pow((e - 1) as nat)
    }
}

/// log2(n) rounded up: the least `k` with `n <= 2^k`.
pub open spec fn ceil_log2(n: int) -> int
    decreases n,
{
    if n <= 1 {
        0
    } else {
        1 + ceil_log2((n + 1) / 2)
    }
}

/// Integer division rounding toward zero, as Rust's `/` does.
pub open spec fn div_toward_zero(a: int, b: int) -> int {
    let q = (if a < 0 { -a } else { a }) / (if b < 0 { -b } else { b });
    if (a < 0) != (b < 0) {
        -q
    } else {
        q
    }
}

/// The value of a type function applied to `args`, when it has one.
pub open spec fn type_function_value(f: TypeFunction, args: Seq<i64>) -> Option<int> {
    match f {
        TypeFunction::TAdd => if args.len() == 2 {
            Some(args[0] + args[1])
        } else {
            None
        },
        TypeFunction::TSub => if args.len() == 2 {
            Some(args[0] - args[1])
        } else {
            None
        },
        TypeFunction::TMul => if args.len() == 2 {
            Some(args[0] * args[1])
        } else {
            None
        },
        TypeFunction::TDiv => if args.len() == 2 && args[1] != 0 {
            Some(div_toward_zero(args[0] as int, args[1] as int))
        } else {
            None
        },
        TypeFunction::TLog => if args.len() == 1 && args[0] > 0 {
            Some(ceil_log2(args[0] as int))
        } else {
            None
        },
        TypeFunction::TExp => if args.len() == 1 && 0 <= args[0] <= 62 {
            // a power past `i64::MAX` has no value
            Some(two_pow(args[0] as nat))
        } else {
            None
        },
        TypeFunction::TMax => if args.len() == 2 {
            Some(if args[0] >= args[1] { args[0] as int } else { args[1] as int })
        } else {
            None
        },
        TypeFunction::TMin => if args.len() == 2 {
            Some(if args[0] <= args[1] { args[0] as int } else { args[1] as int })
        } else {
            None
        },
    }
}

/// A type function has no value exactly when its arguments do not fit it: the
/// wrong number of them, a zero divisor, a logarithm of a number that is not
/// positive, or a power of two that is negative or past `i64::MAX`.
pub proof fn type_function_fails_only_on_bad_arguments(f: TypeFunction, args: Seq<i64>)
    ensures
        type_function_value(f, args) is None <==> match f {
            TypeFunction::TAdd | TypeFunction::TSub | TypeFunction::TMul | TypeFunction::TMax
            | TypeFunction::TMin => args.len() != 2,
            TypeFunction::TDiv => args.len() != 2 || args[1] == 0,
            TypeFunction::TLog => args.len() != 1 || args[0] <= 0,
            TypeFunction::TExp => args.len() != 1 || args[0] < 0 || args[0] > 62,
        },
{
}

/// The value fits an `i64`.
pub open spec fn fits_i64(v: int) -> bool {
    i64::MIN <= v <= i64::MAX
}

impl TypeFunction {
    /// The type function that `name` stands for.
    pub fn from_name(name: &str) -> (r: Option<Self>)
        ensures
            r == type_function_named(name@),
    {
        if str_eq(name, "TAdd") {
            Some(Self::TAdd)
        } else if str_eq(name, "TSub") {
            Some(Self::TSub)
        } else if str_eq(name, "TMul") {
            Some(Self::TMul)
        } else if str_eq(name, "TDiv") {
            Some(Self::TDiv)
        } else if str_eq(name, "TLog") {
            Some(Self::TLog)
        } else if str_eq(name, "TExp") {
            Some(Self::TExp)
        } else if str_eq(name, "TMax") {
            Some(Self::TMax)
        } else if str_eq(name, "TMin") {
            Some(Self::TMin)
        } else {
            None
        }
    }

    /// Evaluates the type function with the given arguments; `None` when the
    /// arguments do not fit it.
    pub fn evaluate(&self, args: &[i64]) -> (r: Option<i64>)
        requires
            type_function_value(*self, args@) matches Some(v) ==> fits_i64(v),
        ensures
            r matches Some(v) ==> type_function_value(*self, args@) == Some(v as int),
            r is None ==> type_function_value(*self, args@) is None,
    {
        match self {
            Self::TAdd => {
                if args.len() == 2 {
                    Some(args[0] + args[1])
                } else {
                    None
                }
            },
            Self::TSub => {
                if args.len() == 2 {
                    Some(args[0] - args[1])
                } else {
                    None
                }
            },
            Self::TMul => {
                if args.len() == 2 {
                    Some(args[0] * args[1])
                } else {
                    None
                }
            },
            Self::TDiv => {
                if args.len() == 2 && args[1] != 0 {
                    Some(div_i64(args[0], args[1]))
                } else {
                    None
                }
            },
            Self::TLog => {
                if args.len() == 1 && args[0] > 0 {
                    Some(ceil_log2_exec(args[0]))
                } else {
                    None
                }
            },
            Self::TExp => {
                if args.len() == 1 && 0 <= args[0] && args[0] <= 62 {
                    let e: u32 = args[0] as u32;
                    Some(pow2_exec(e))
                } else {
                    None
                }
            },
            Self::TMax => {
                if args.len() == 2 {
                    Some(if args[0] >= args[1] { args[0] } else { args[1] })
                } else {
                    None
                }
            },
            Self::TMin => {
                if args.len() == 2 {
                    Some(if args[0] <= args[1] { args[0] } else { args[1] })
                } else {
                    None
                }
            },
        }
    }

    /// The name of this type function.
    pub fn name(&self) -> (r: &'static str)
        ensures
            r@ == type_function_name(*self),
    {
        match self {
            Self::TAdd => "TAdd",
            Self::TSub => "TSub",
            Self::TMul => "TMul",
            Self::TDiv => "TDiv",
            Self::TLog => "TLog",
            Self::TExp => "TExp",
            Self::TMax => "TMax",
            Self::TMin => "TMin",
        }
    }
}

fn div_i64(a: i64, b: i64) -> (q: i64)
    requires
        b != 0,
        fits_i64(div_toward_zero(a as int, b as int)),
    ensures
        q as int == div_toward_zero(a as int, b as int),
{
    let ua: u64 = if a < 0 {
        if a == i64::MIN {
            9223372036854775808u64
        } else {
            (-a) as u64
        }
    } else {
        a as u64
    };
    let ub: u64 = if b < 0 {
        if b == i64::MIN {
            9223372036854775808u64
        } else {
            (-b) as u64
        }
    } else {
        b as u64
    };
    let uq = ua / ub;
    if (a < 0) != (b < 0) {
        if uq == 9223372036854775808u64 {
            i64::MIN
        } else {
            -(uq as i64)
        }
    } else {
        uq as i64
    }
}

proof fn lemma_two_pow_63()
    ensures
        two_pow(63) == 0x8000_0000_0000_0000,
        two_pow(61) == 0x2000_0000_0000_0000,
{
    reveal_with_fuel(two_pow, 64);
}

proof fn lemma_two_pow_mono(a: nat, b: nat)
    requires
        a <= b,
    ensures
        1 <= two_pow(a) <= two_pow(b),
    decreases b,
{
    if b > a {
        lemma_two_pow_mono(a, (b - 1) as nat);
    } else if a > 0 {
        lemma_two_pow_mono((a - 1) as nat, (a - 1) as nat);
    }
}

proof fn lemma_ceil_log2_le(n: int, e: nat)
    requires
        1 <= n <= two_pow(e),
    ensures
        ceil_log2(n) <= e,
    decreases e,
{
    if n > 1 {
        assert(e >= 1);
        lemma_ceil_log2_le((n + 1) / 2, (e - 1) as nat);
    }
}

fn ceil_log2_exec(n: i64) -> (r: i64)
    requires
        n > 0,
    ensures
        r as int == ceil_log2(n as int),
{
    let mut m: u64 = n as u64;
    let mut k: i64 = 0;
    proof {
        lemma_two_pow_63();
        lemma_ceil_log2_le(n as int, 63);
        lemma_ceil_log2_nonneg(n as int);
    }
    while m > 1
        invariant
            1 <= m <= i64::MAX,
            0 <= k,
            ceil_log2(n as int) == k + ceil_log2(m as int),
            ceil_log2(n as int) <= 63,
            ceil_log2(m as int) >= 0,
        decreases m,
    {
        proof {
            lemma_ceil_log2_nonneg((m as int + 1) / 2);
        }
        m = (m + 1) / 2;
        k = k + 1;
    }
    k
}

proof fn lemma_ceil_log2_nonneg(n: int)
    ensures
        ceil_log2(n) >= 0,
    decreases n,
{
    if n > 1 {
        lemma_ceil_log2_nonneg((n + 1) / 2);
    }
}

fn pow2_exec(e: u32) -> (r: i64)
    requires
        e <= 62,
    ensures
        r as int == two_pow(e as nat),
{
    let mut r: i64 = 1;
    let mut i: u32 = 0;
    while i < e
        invariant
            i <= e <= 62,
            r as int == two_pow(i as nat),
        decreases e - i,
    {
        proof {
            lemma_two_pow_63();
            lemma_two_pow_mono(i as nat, 61);
        }
        r = r * 2;
        i = i + 1;
    }
    r
}

/// A type function's name reads back as that type function.
pub proof fn type_function_name_round_trip(f: TypeFunction)
    ensures
        type_function_named(type_function_name(f)) == Some(f),
{
    reveal_strlit("TAdd");
    reveal_strlit("TSub");
    reveal_strlit("TMul");
    reveal_strlit("TDiv");
    reveal_strlit("TLog");
    reveal_strlit("TExp");
    reveal_strlit("TMax");
    reveal_strlit("TMin");
    match f {
        TypeFunction::TAdd => {
        },
        TypeFunction::TSub => {
            assert("TSub"@[1] != "TAdd"@[1]);
        },
        TypeFunction::TMul => {
            assert("TMul"@[1] != "TAdd"@[1]);
            assert("TMul"@[1] != "TSub"@[1]);
        },
        TypeFunction::TDiv => {
            assert("TDiv"@[1] != "TAdd"@[1]);
            assert("TDiv"@[1] != "TSub"@[1]);
            assert("TDiv"@[1] != "TMul"@[1]);
        },
        TypeFunction::TLog => {
            assert("TLog"@[1] != "TAdd"@[1]);
            assert("TLog"@[1] != "TSub"@[1]);
            assert("TLog"@[1] != "TMul"@[1]);
            assert("TLog"@[1] != "TDiv"@[1]);
        },
        TypeFunction::TExp => {
            assert("TExp"@[1] != "TAdd"@[1]);
            assert("TExp"@[1] != "TSub"@[1]);
            assert("TExp"@[1] != "TMul"@[1]);
            assert("TExp"@[1] != "TDiv"@[1]);
            assert("TExp"@[1] != "TLog"@[1]);
        },
        TypeFunction::TMax => {
            assert("TMax"@[1] != "TAdd"@[1]);
            assert("TMax"@[1] != "TSub"@[1]);
            assert("TMax"@[2] != "TMul"@[2]);
            assert("TMax"@[1] != "TDiv"@[1]);
            assert("TMax"@[1] != "TLog"@[1]);
            assert("TMax"@[1] != "TExp"@[1]);
        },
        TypeFunction::TMin => {
            assert("TMin"@[1] != "TAdd"@[1]);
            assert("TMin"@[1] != "TSub"@[1]);
            assert("TMin"@[2] != "TMul"@[2]);
            assert("TMin"@[1] != "TDiv"@[1]);
            assert("TMin"@[1] != "TLog"@[1]);
            assert("TMin"@[1] != "TExp"@[1]);
            assert("TMin"@[2] != "TMax"@[2]);
        },
    }
}

proof fn lemma_function_names_differ()
    ensures
        "TAdd"@ != "TMax"@ && "TAdd"@ != "TMin"@,
        "TSub"@ != "TMax"@ && "TSub"@ != "TMin"@ && "TSub"@ != "TAdd"@,
        "TMul"@ != "TMax"@ && "TMul"@ != "TMin"@ && "TMul"@ != "TAdd"@ && "TMul"@ != "TSub"@,
        "TDiv"@ != "TMax"@ && "TDiv"@ != "TMin"@ && "TDiv"@ != "TAdd"@ && "TDiv"@ != "TSub"@
            && "TDiv"@ != "TMul"@,
        "TLog"@ != "TMax"@ && "TLog"@ != "TMin"@ && "TLog"@ != "TAdd"@ && "TLog"@ != "TSub"@
            && "TLog"@ != "TMul"@ && "TLog"@ != "TDiv"@,
        "TExp"@ != "TMax"@ && "TExp"@ != "TMin"@ && "TExp"@ != "TAdd"@ && "TExp"@ != "TSub"@
            && "TExp"@ != "TMul"@ && "TExp"@ != "TDiv"@ && "TExp"@ != "TLog"@,
        "TMin"@ != "TMax"@,
{
    reveal_strlit("TAdd");
    reveal_strlit("TSub");
    reveal_strlit("TMul");
    reveal_strlit("TDiv");
    reveal_strlit("TLog");
    reveal_strlit("TExp");
    reveal_strlit("TMax");
    reveal_strlit("TMin");
    assert("TAdd"@[1] != "TMax"@[1] && "TAdd"@[1] != "TMin"@[1]);
    assert("TSub"@[1] != "TMax"@[1] && "TSub"@[1] != "TMin"@[1] && "TSub"@[1] != "TAdd"@[1]);
    assert("TMul"@[2] != "TMax"@[2] && "TMul"@[2] != "TMin"@[2] && "TMul"@[1] != "TAdd"@[1]
        && "TMul"@[1] != "TSub"@[1]);
    assert("TDiv"@[1] != "TMax"@[1] && "TDiv"@[1] != "TMin"@[1] && "TDiv"@[1] != "TAdd"@[1]
        && "TDiv"@[1] != "TSub"@[1] && "TDiv"@[1] != "TMul"@[1]);
    assert("TLog"@[1] != "TMax"@[1] && "TLog"@[1] != "TMin"@[1] && "TLog"@[1] != "TAdd"@[1]
        && "TLog"@[1] != "TSub"@[1] && "TLog"@[1] != "TMul"@[1] && "TLog"@[1] != "TDiv"@[1]);
    assert("TExp"@[1] != "TMax"@[1] && "TExp"@[1] != "TMin"@[1] && "TExp"@[1] != "TAdd"@[1]
        && "TExp"@[1] != "TSub"@[1] && "TExp"@[1] != "TMul"@[1] && "TExp"@[1] != "TDiv"@[1]
        && "TExp"@[1] != "TLog"@[1]);
    assert("TMin"@[2] != "TMax"@[2]);
}

/// When the only evaluated type function of a result is one operation, the
/// `Result` line shows it as the formula it computes over its arguments
/// `a` and `b`: `a+b`, `a-b`, `a*b`, `a/b`, `max(a,b)`, `min(a,b)`,
/// `log2(a)` or `2^a`.
pub proof fn single_operation_shown_as_formula(r: ExpansionResult, op: SpecOperation)
    requires
        r.steps@.len() > 2,
        operations_upto(r.steps@, r.steps@.len() as int) == seq![op],
    ensures
        op.op_type == "TAdd"@ && op.args.len() >= 2 ==> calculation(r) == op.args[0] + "+"@
            + op.args[1],
        op.op_type == "TSub"@ && op.args.len() >= 2 ==> calculation(r) == op.args[0] + "-"@
            + op.args[1],
        op.op_type == "TMul"@ && op.args.len() >= 2 ==> calculation(r) == op.args[0] + "*"@
            + op.args[1],
        op.op_type == "TDiv"@ && op.args.len() >= 2 ==> calculation(r) == op.args[0] + "/"@
            + op.args[1],
        op.op_type == "TMax"@ && op.args.len() >= 2 ==> calculation(r) == "max("@ + op.args[0]
            + ","@ + op.args[1] + ")"@,
        op.op_type == "TMin"@ && op.args.len() >= 2 ==> calculation(r) == "min("@ + op.args[0]
            + ","@ + op.args[1] + ")"@,
        op.op_type == "TLog"@ && op.args.len() >= 1 ==> calculation(r) == "log2("@ + op.args[0]
            + ")"@,
        op.op_type == "TExp"@ && op.args.len() >= 1 ==> calculation(r) == "2^"@ + op.args[0],
{
    lemma_function_names_differ();
    assert(seq![op][0] == op);
    reveal_strlit("max");
    reveal_strlit("min");
    reveal_strlit("(");
    reveal_strlit("max(");
    reveal_strlit("min(");
    if op.args.len() >= 2 {
        assert("max"@ + "("@ + op.args[0] + ","@ + op.args[1] + ")"@ =~= "max("@ + op.args[0]
            + ","@ + op.args[1] + ")"@);
        assert("min"@ + "("@ + op.args[0] + ","@ + op.args[1] + ")"@ =~= "min("@ + op.args[0]
            + ","@ + op.args[1] + ")"@);
    }
}

/// In a chain of operations, each operation wraps the expression built so
/// far: `(e+b)` for `TAdd`, `(e-b)` for `TSub`, `e*b` for `TMul`, `e/b` for
/// `TDiv` (with `b` its second argument), and `max(a,b)` or `min(a,b)` of
/// its own arguments for `TMax` and `TMin`.
pub proof fn chained_operation_wraps_expression(e: Seq<char>, ops: Seq<SpecOperation>, k: int)
    requires
        0 <= k < ops.len(),
        ops[k].args.len() >= 2,
    ensures
        ops[k].op_type == "TAdd"@ ==> chain(e, ops, k + 1) == "("@ + chain(e, ops, k) + "+"@
            + ops[k].args[1] + ")"@,
        ops[k].op_type == "TSub"@ ==> chain(e, ops, k + 1) == "("@ + chain(e, ops, k) + "-"@
            + ops[k].args[1] + ")"@,
        ops[k].op_type == "TMul"@ ==> chain(e, ops, k + 1) == chain(e, ops, k) + "*"@
            + ops[k].args[1],
        ops[k].op_type == "TDiv"@ ==> chain(e, ops, k + 1) == chain(e, ops, k) + "/"@
            + ops[k].args[1],
        ops[k].op_type == "TMax"@ ==> chain(e, ops, k + 1) == "max("@ + ops[k].args[0] + ","@
            + ops[k].args[1] + ")"@,
        ops[k].op_type == "TMin"@ ==> chain(e, ops, k + 1) == "min("@ + ops[k].args[0] + ","@
            + ops[k].args[1] + ")"@,
{
    lemma_function_names_differ();
    reveal_strlit("max");
    reveal_strlit("min");
    reveal_strlit("(");
    reveal_strlit("max(");
    reveal_strlit("min(");
    let a = ops[k].args[0];
    let b = ops[k].args[1];
    assert("max"@ + "("@ + a + ","@ + b + ")"@ =~= "max("@ + a + ","@ + b + ")"@);
    assert("min"@ + "("@ + a + ","@ + b + ")"@ =~= "min("@ + a + ","@ + b + ")"@);
}

} // verus!
