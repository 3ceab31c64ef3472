//! The built-in procedures: arithmetic, comparison, logic, list and
//! predicate operations over evaluated arguments. Each one is a pure
//! function from the argument values to a result and a diagnostic text
//! (empty when nothing is reported).

use vstd::prelude::*;
use crate::data::Data;
use crate::data::NativeOp;
use crate::data::void_dv;
use crate::data::new_void_data;
use crate::data::DataType;
use crate::data::DV;
use crate::data::dv;
use crate::data::dv_seq;
use crate::data::lemma_dv_seq;
use crate::data::leaf_dv;
use crate::data::null_dv;
use crate::data::invalid_dv;
use crate::data::true_dv;
use crate::data::false_dv;
use crate::data::is_null_dv;
use crate::data::is_false_dv;
use crate::data::null_sym;
use crate::data::invalid_data;
use crate::data::new_true_sym;
use crate::data::new_false_sym;
use crate::data::is_null_sym;
use crate::data::is_false_sym;
use crate::data::spec_render;
use crate::digits::int_text;
use crate::digits::int_text_val;
use crate::digits::is_int_text;
use crate::digits::parse_i64;
use crate::digits::i64_string;
use crate::digits::usize_string;
use crate::numeric::Dec;
use crate::numeric::dec_ok;
use crate::numeric::dec_of_i64;
use crate::numeric::dec_of_i64_spec;
use crate::numeric::parse_real;
use crate::numeric::parse_real_spec;
use crate::numeric::render_dec;
use crate::numeric::render_dec_spec;
use crate::numeric::dec_add;
use crate::numeric::dec_add_spec;
use crate::numeric::dec_mul;
use crate::numeric::dec_mul_spec;
use crate::numeric::dec_div;
use crate::numeric::dec_div_spec;
use crate::numeric::dec_cmp;
use crate::numeric::dec_cmp_spec;
use crate::numeric::dec_pow;
use crate::numeric::dec_pow_spec;
use core::cmp::Ordering;

verus! {

/// The failure classes a diagnostic names.
#[derive(Clone, Copy, PartialEq, Eq, Structural, Debug)]
pub enum ErrKind {
    ArityMismatch,
    NotAProcedure,
    ContractViolation,
    Undefined,
    MissingProcedure,
    BadSyntax,
}

/// The body of a diagnostic for each failure class.
pub open spec fn diag_body(err: ErrKind, proc: Seq<char>) -> Seq<char> {
    match err {
        ErrKind::ArityMismatch =>
            "arity mismatch;\n the expected number of arguments does not match the given number"@,
        ErrKind::NotAProcedure =>
            "not a procedure;\n expected a procedure that can be applied to arguments"@,
        ErrKind::ContractViolation => "contract violation;"@,
        ErrKind::MissingProcedure =>
            "missing procedure expression;\n probably originally (), which is an illegal empty application in: ("@
                + proc + ")"@,
        ErrKind::Undefined => "undefined;\n cannot reference an identifier before its definition"@,
        ErrKind::BadSyntax => "bad syntax;"@,
    }
}

/// A full diagnostic: the reporting procedure, the failure class, and
/// where they help, the expected and given descriptions.
pub open spec fn diag(err: ErrKind, proc: Seq<char>, expected: Seq<char>, given: Seq<char>)
    -> Seq<char> {
    proc + ": "@ + diag_body(err, proc) + (if expected.len() > 0 {
        "\n  expected: "@ + expected
    } else {
        Seq::empty()
    }) + (if expected.len() > 0 || given.len() > 0 {
        "\n  given: "@ + given
    } else {
        Seq::empty()
    })
}

/// Writes the diagnostic the spec function names.
pub fn error_text(err: ErrKind, proc: &str, expected: &str, given: &str) -> (res: String)
    ensures
        res@ == diag(err, proc@, expected@, given@),
{
    let mut s = String::from_str(proc);
    s.append(": ");
    match err {
        ErrKind::ArityMismatch => {
            s.append(
                "arity mismatch;\n the expected number of arguments does not match the given number",
            );
        },
        ErrKind::NotAProcedure => {
            s.append("not a procedure;\n expected a procedure that can be applied to arguments");
        },
        ErrKind::ContractViolation => {
            s.append("contract violation;");
        },
        ErrKind::MissingProcedure => {
            s.append(
                "missing procedure expression;\n probably originally (), which is an illegal empty application in: (",
            );
            s.append(proc);
            s.append(")");
        },
        ErrKind::Undefined => {
            s.append("undefined;\n cannot reference an identifier before its definition");
        },
        ErrKind::BadSyntax => {
            s.append("bad syntax;");
        },
    }
    let el = expected.unicode_len();
    let gl = given.unicode_len();
    if el > 0 {
        s.append("\n  expected: ");
        s.append(expected);
    }
    if el > 0 || gl > 0 {
        s.append("\n  given: ");
        s.append(given);
    }
    s
}

/// A number as the built-ins hold it: a machine integer or a stored
/// decimal.
#[derive(Clone, Copy, PartialEq, Eq, Structural, Debug)]
pub enum Num {
    I(i64),
    R(Dec),
}

/// The number a datum's text denotes under its kind, where the machine
/// can hold it.
pub open spec fn num_of(x: DV) -> Option<Num> {
    if x.kind == DataType::Integer {
        if is_int_text(x.text) && i64::MIN <= int_text_val(x.text) <= i64::MAX {
            Some(Num::I(int_text_val(x.text) as i64))
        } else {
            None
        }
    } else if x.kind == DataType::Real {
        match parse_real_spec(x.text) {
            Some(d) => Some(Num::R(d)),
            None => None,
        }
    } else {
        None
    }
}

pub open spec fn num_wf(n: Num) -> bool {
    match n {
        Num::I(_) => true,
        Num::R(d) => dec_ok(d),
    }
}

pub open spec fn is_number_kind(x: DV) -> bool {
    x.kind == DataType::Integer || x.kind == DataType::Real
}

fn data_num(d: &Data) -> (r: Option<Num>)
    ensures
        r == num_of(d@),
        r matches Some(n) ==> num_wf(n),
{
    match d.data_type {
        DataType::Integer => match parse_i64(d.string.as_str()) {
            Some(v) => Some(Num::I(v)),
            None => None,
        },
        DataType::Real => match parse_real(d.string.as_str()) {
            Some(x) => Some(Num::R(x)),
            None => None,
        },
        _ => None,
    }
}

/// The stored decimal holding a number's value.
pub open spec fn num_dec(n: Num) -> Dec {
    match n {
        Num::I(i) => dec_of_i64_spec(i),
        Num::R(d) => d,
    }
}

fn num_to_dec(n: Num) -> (d: Dec)
    requires
        num_wf(n),
    ensures
        d == num_dec(n),
        dec_ok(d),
{
    match n {
        Num::I(i) => dec_of_i64(i),
        Num::R(d) => d,
    }
}

/// A proper list: the empty-list value itself, or list- or symbol-kind
/// data whose final element is the empty-list value.
pub open spec fn is_list_dv(x: DV) -> bool {
    ||| is_null_dv(x)
    ||| (x.kind == DataType::List && x.items.len() > 1 && is_null_dv(x.items.last()))
    ||| (x.kind == DataType::Symbol && x.items.len() > 0 && is_null_dv(x.items.last()))
}

pub fn is_list_data(d: &Data) -> (r: bool)
    ensures
        r == is_list_dv(d@),
{
    proof {
        lemma_dv_seq(d.list@);
    }
    if is_null_sym(d) {
        true
    } else if d.data_type == DataType::List && d.list.len() > 1 && is_null_sym(
        &d.list[d.list.len() - 1],
    ) {
        true
    } else if d.data_type == DataType::Symbol && d.list.len() > 0 && is_null_sym(
        &d.list[d.list.len() - 1],
    ) {
        true
    } else {
        false
    }
}

/// The boolean literal for a truth value.
pub open spec fn bool_dv(b: bool) -> DV {
    if b {
        true_dv()
    } else {
        false_dv()
    }
}

fn bool_data(b: bool) -> (r: Data)
    ensures
        r@ == bool_dv(b),
{
    if b {
        new_true_sym()
    } else {
        new_false_sym()
    }
}


/// `list`: the arguments as a proper list; none give the empty list.
pub open spec fn spec_proc_list(args: Seq<DV>) -> (DV, Seq<char>) {
    if args.len() == 0 {
        (null_dv(), Seq::empty())
    } else {
        (
            DV {
                kind: DataType::List,
                text: Seq::empty(),
                items: args.push(null_dv()),
                native: None,
                ql: 0,
                scope: None,
            },
            Seq::empty(),
        )
    }
}

pub fn proc_list(args: &Vec<Data>) -> (res: (Data, String))
    ensures
        (res.0@, res.1@) == spec_proc_list(dv_seq(args@)),
{
    proof {
        lemma_dv_seq(args@);
    }
    if args.len() == 0 {
        (null_sym(), String::new())
    } else {
        let mut items: Vec<Data> = Vec::new();
        let n = args.len();
        let mut i: usize = 0;
        while i < n
            invariant
                i <= n,
                n == args@.len(),
                items@.len() == i,
                forall|j: int| 0 <= j < i ==> (#[trigger] items@[j])@ == args@[j]@,
            decreases n - i,
        {
            items.push(args[i].clone());
            i += 1;
        }
        items.push(null_sym());
        let ghost itemsv = items@;
        let out = Data::from_list(items);
        proof {
            lemma_dv_seq(itemsv);
            lemma_dv_seq(args@);
            assert forall|j: int| 0 <= j < itemsv.len() implies #[trigger] dv_seq(
                itemsv,
            )[j] == dv_seq(args@).push(null_dv())[j] by {
                assert(dv_seq(itemsv)[j] == dv(itemsv[j]));
                if j < args@.len() {
                    assert(itemsv[j]@ == args@[j]@);
                    assert(dv_seq(args@)[j] == dv(args@[j]));
                }
            }
            assert(out@.items =~= dv_seq(args@).push(null_dv()));
        }
        (out, String::new())
    }
}

/// The arity diagnostic a one-argument procedure reports.
pub open spec fn arity1_diag(name: Seq<char>, n: int) -> Seq<char> {
    diag(ErrKind::ArityMismatch, name, "1"@, int_text(n))
}

/// `null?`: whether the one argument is the empty-list value.
pub open spec fn spec_proc_is_null(args: Seq<DV>) -> (DV, Seq<char>) {
    if args.len() != 1 {
        (invalid_dv(), arity1_diag("null?"@, args.len() as int))
    } else {
        (bool_dv(is_null_dv(args[0])), Seq::empty())
    }
}

pub fn proc_is_null(args: &Vec<Data>) -> (res: (Data, String))
    ensures
        (res.0@, res.1@) == spec_proc_is_null(dv_seq(args@)),
{
    proof {
        lemma_dv_seq(args@);
    }
    if args.len() != 1 {
        let count = usize_string(args.len());
        (invalid_data(), error_text(ErrKind::ArityMismatch, "null?", "1", count.as_str()))
    } else {
        (bool_data(is_null_sym(&args[0])), String::new())
    }
}

/// `list?`: whether the one argument is a proper list.
pub open spec fn spec_proc_is_list(args: Seq<DV>) -> (DV, Seq<char>) {
    if args.len() != 1 {
        (invalid_dv(), arity1_diag("list?"@, args.len() as int))
    } else {
        (bool_dv(is_list_dv(args[0])), Seq::empty())
    }
}

pub fn proc_is_list(args: &Vec<Data>) -> (res: (Data, String))
    ensures
        (res.0@, res.1@) == spec_proc_is_list(dv_seq(args@)),
{
    proof {
        lemma_dv_seq(args@);
    }
    if args.len() != 1 {
        let count = usize_string(args.len());
        (invalid_data(), error_text(ErrKind::ArityMismatch, "list?", "1", count.as_str()))
    } else {
        (bool_data(is_list_data(&args[0])), String::new())
    }
}

/// `pair?`: whether the one argument has at least two members.
pub open spec fn spec_proc_is_pair(args: Seq<DV>) -> (DV, Seq<char>) {
    if args.len() != 1 {
        (invalid_dv(), arity1_diag("pair?"@, args.len() as int))
    } else {
        (bool_dv(args[0].items.len() > 1), Seq::empty())
    }
}

pub fn proc_is_pair(args: &Vec<Data>) -> (res: (Data, String))
    ensures
        (res.0@, res.1@) == spec_proc_is_pair(dv_seq(args@)),
{
    proof {
        lemma_dv_seq(args@);
        if args@.len() == 1 {
            lemma_dv_seq(args@[0].list@);
        }
    }
    if args.len() != 1 {
        let count = usize_string(args.len());
        (invalid_data(), error_text(ErrKind::ArityMismatch, "pair?", "1", count.as_str()))
    } else {
        (bool_data(args[0].list.len() > 1), String::new())
    }
}

/// `string?`: whether the one argument is a symbol wrapped in double
/// quotes.
pub open spec fn spec_proc_is_string(args: Seq<DV>) -> (DV, Seq<char>) {
    if args.len() != 1 {
        (invalid_dv(), arity1_diag("string?"@, args.len() as int))
    } else {
        let x = args[0];
        (
            bool_dv(
                x.kind == DataType::Symbol && x.text.len() >= 2 && x.text[0] == '"'
                    && x.text.last() == '"',
            ),
            Seq::empty(),
        )
    }
}

pub fn proc_is_string(args: &Vec<Data>) -> (res: (Data, String))
    ensures
        (res.0@, res.1@) == spec_proc_is_string(dv_seq(args@)),
{
    proof {
        lemma_dv_seq(args@);
    }
    if args.len() != 1 {
        let count = usize_string(args.len());
        (invalid_data(), error_text(ErrKind::ArityMismatch, "string?", "1", count.as_str()))
    } else {
        let t = args[0].string.as_str();
        let n = t.unicode_len();
        let ok = args[0].data_type == DataType::Symbol && n >= 2 && t.get_char(0) == '"'
            && t.get_char(n - 1) == '"';
        (bool_data(ok), String::new())
    }
}

/// `cons`: a pair of the first argument and the second, splicing the
/// second's members when it has any.
pub open spec fn spec_proc_cons(args: Seq<DV>) -> (DV, Seq<char>) {
    if args.len() != 2 {
        (invalid_dv(), diag(ErrKind::ArityMismatch, "cons"@, "2"@, int_text(args.len() as int)))
    } else {
        let tail: Seq<DV> = if args[1].items.len() == 0 {
            seq![args[1]]
        } else {
            args[1].items
        };
        (
            DV {
                kind: DataType::List,
                text: Seq::empty(),
                items: seq![args[0]] + tail,
                native: None,
                ql: 0,
                scope: None,
            },
            Seq::empty(),
        )
    }
}

pub fn proc_cons(args: &Vec<Data>) -> (res: (Data, String))
    ensures
        (res.0@, res.1@) == spec_proc_cons(dv_seq(args@)),
{
    proof {
        lemma_dv_seq(args@);
    }
    if args.len() != 2 {
        let count = usize_string(args.len());
        return (invalid_data(), error_text(ErrKind::ArityMismatch, "cons", "2", count.as_str()));
    }
    let mut items: Vec<Data> = Vec::new();
    items.push(args[0].clone());
    if args[1].list.len() == 0 {
        items.push(args[1].clone());
    } else {
        let n = args[1].list.len();
        let mut i: usize = 0;
        while i < n
            invariant
                i <= n,
                n == args@[1].list@.len(),
                args@.len() == 2,
                items@.len() == 1 + i,
                items@[0]@ == args@[0]@,
                forall|j: int| 1 <= j < i + 1 ==> (#[trigger] items@[j])@ == args@[1].list@[j
                    - 1]@,
            decreases n - i,
        {
            items.push(args[1].list[i].clone());
            i += 1;
        }
    }
    let ghost itemsv = items@;
    let out = Data::from_list(items);
    proof {
        lemma_dv_seq(itemsv);
        lemma_dv_seq(args@);
        lemma_dv_seq(args@[1].list@);
        let tail: Seq<DV> = if dv(args@[1]).items.len() == 0 {
            seq![dv(args@[1])]
        } else {
            dv(args@[1]).items
        };
        assert forall|j: int| 0 <= j < itemsv.len() implies #[trigger] dv_seq(
            itemsv,
        )[j] == (seq![dv(args@[0])] + tail)[j] by {
            assert(dv_seq(itemsv)[j] == dv(itemsv[j]));
            if j >= 1 && dv(args@[1]).items.len() > 0 {
                assert(itemsv[j]@ == args@[1].list@[j - 1]@);
                assert(dv_seq(args@[1].list@)[j - 1] == dv(args@[1].list@[j - 1]));
            }
        }
        assert(out@.items =~= seq![dv(args@[0])] + tail);
    }
    (out, String::new())
}

/// `car`: the first member of a pair.
pub open spec fn spec_proc_car(args: Seq<DV>) -> (DV, Seq<char>) {
    if args.len() != 1 {
        (invalid_dv(), arity1_diag("car"@, args.len() as int))
    } else if !(args[0].items.len() > 1) {
        (
            invalid_dv(),
            diag(ErrKind::ContractViolation, "car"@, "pair?"@, spec_render(args[0], 0)),
        )
    } else {
        (args[0].items[0], Seq::empty())
    }
}

pub fn proc_car(args: &Vec<Data>) -> (res: (Data, String))
    ensures
        (res.0@, res.1@) == spec_proc_car(dv_seq(args@)),
{
    proof {
        lemma_dv_seq(args@);
        if args@.len() == 1 {
            lemma_dv_seq(args@[0].list@);
        }
    }
    if args.len() != 1 {
        let count = usize_string(args.len());
        (invalid_data(), error_text(ErrKind::ArityMismatch, "car", "1", count.as_str()))
    } else if !(args[0].list.len() > 1) {
        let shown = args[0].render(0);
        (
            invalid_data(),
            error_text(ErrKind::ContractViolation, "car", "pair?", shown.as_str()),
        )
    } else {
        (args[0].list[0].clone(), String::new())
    }
}

/// `cdr`: the rest of a pair; a two-member proper list leaves the empty
/// list.
pub open spec fn spec_proc_cdr(args: Seq<DV>) -> (DV, Seq<char>) {
    if args.len() != 1 {
        (invalid_dv(), arity1_diag("cdr"@, args.len() as int))
    } else if !(args[0].items.len() > 1) {
        (
            invalid_dv(),
            diag(ErrKind::ContractViolation, "cdr"@, "pair?"@, spec_render(args[0], 0)),
        )
    } else if args[0].items.len() == 2 && is_null_dv(args[0].items[1]) {
        (null_dv(), Seq::empty())
    } else {
        (
            DV {
                kind: DataType::List,
                text: Seq::empty(),
                items: args[0].items.skip(1),
                native: None,
                ql: 0,
                scope: None,
            },
            Seq::empty(),
        )
    }
}

pub fn proc_cdr(args: &Vec<Data>) -> (res: (Data, String))
    ensures
        (res.0@, res.1@) == spec_proc_cdr(dv_seq(args@)),
{
    proof {
        lemma_dv_seq(args@);
        if args@.len() == 1 {
            lemma_dv_seq(args@[0].list@);
        }
    }
    if args.len() != 1 {
        let count = usize_string(args.len());
        return (invalid_data(), error_text(ErrKind::ArityMismatch, "cdr", "1", count.as_str()));
    }
    if !(args[0].list.len() > 1) {
        let shown = args[0].render(0);
        return (
            invalid_data(),
            error_text(ErrKind::ContractViolation, "cdr", "pair?", shown.as_str()),
        );
    }
    if args[0].list.len() == 2 && is_null_sym(&args[0].list[1]) {
        return (null_sym(), String::new());
    }
    let n = args[0].list.len();
    let mut items: Vec<Data> = Vec::new();
    let mut i: usize = 1;
    while i < n
        invariant
            1 <= i <= n,
            args@.len() == 1,
            n == args@[0].list@.len(),
            items@.len() == i - 1,
            forall|j: int| 0 <= j < i - 1 ==> (#[trigger] items@[j])@ == args@[0].list@[j + 1]@,
        decreases n - i,
    {
        items.push(args[0].list[i].clone());
        i += 1;
    }
    let ghost itemsv = items@;
    let out = Data::from_list(items);
    proof {
        lemma_dv_seq(itemsv);
        lemma_dv_seq(args@[0].list@);
        assert forall|j: int| 0 <= j < itemsv.len() implies #[trigger] dv_seq(
            itemsv,
        )[j] == dv(args@[0]).items.skip(1)[j] by {
            assert(dv_seq(itemsv)[j] == dv(itemsv[j]));
            assert(itemsv[j]@ == args@[0].list@[j + 1]@);
            assert(dv_seq(args@[0].list@)[j + 1] == dv(args@[0].list@[j + 1]));
        }
        assert(out@.items =~= dv(args@[0]).items.skip(1));
    }
    (out, String::new())
}

/// `number?`: whether the one argument is numeric data.
pub open spec fn spec_proc_is_number(args: Seq<DV>) -> (DV, Seq<char>) {
    if args.len() != 1 {
        (invalid_dv(), arity1_diag("number?"@, args.len() as int))
    } else {
        (bool_dv(is_number_kind(args[0])), Seq::empty())
    }
}

pub fn proc_is_number(args: &Vec<Data>) -> (res: (Data, String))
    ensures
        (res.0@, res.1@) == spec_proc_is_number(dv_seq(args@)),
{
    proof {
        lemma_dv_seq(args@);
    }
    if args.len() != 1 {
        let count = usize_string(args.len());
        (invalid_data(), error_text(ErrKind::ArityMismatch, "number?", "1", count.as_str()))
    } else {
        (
            bool_data(
                args[0].data_type == DataType::Integer || args[0].data_type == DataType::Real,
            ),
            String::new(),
        )
    }
}

/// `integer?`: integer data, or real data denoting a whole number.
pub open spec fn spec_proc_is_integer(args: Seq<DV>) -> (DV, Seq<char>) {
    if args.len() != 1 {
        (invalid_dv(), arity1_diag("integer?"@, args.len() as int))
    } else {
        (bool_dv(is_integer_dv(args[0])), Seq::empty())
    }
}

/// Integer data, or real data whose stored decimal is whole.
pub open spec fn is_integer_dv(x: DV) -> bool {
    if x.kind == DataType::Integer {
        true
    } else if x.kind == DataType::Real {
        match parse_real_spec(x.text) {
            Some(d) => d.e == 0,
            None => false,
        }
    } else {
        false
    }
}

pub fn proc_is_integer(args: &Vec<Data>) -> (res: (Data, String))
    ensures
        (res.0@, res.1@) == spec_proc_is_integer(dv_seq(args@)),
{
    proof {
        lemma_dv_seq(args@);
    }
    if args.len() != 1 {
        let count = usize_string(args.len());
        (invalid_data(), error_text(ErrKind::ArityMismatch, "integer?", "1", count.as_str()))
    } else {
        (bool_data(is_integer_data(&args[0])), String::new())
    }
}

fn is_integer_data(d: &Data) -> (r: bool)
    ensures
        r == is_integer_dv(d@),
{
    if d.data_type == DataType::Integer {
        true
    } else if d.data_type == DataType::Real {
        match parse_real(d.string.as_str()) {
            Some(x) => x.e == 0,
            None => false,
        }
    } else {
        false
    }
}

/// `real?`: the same acceptance as `number?`.
pub open spec fn spec_proc_is_real(args: Seq<DV>) -> (DV, Seq<char>) {
    if args.len() != 1 {
        (invalid_dv(), arity1_diag("number?"@, args.len() as int))
    } else {
        (bool_dv(is_number_kind(args[0])), Seq::empty())
    }
}

pub fn proc_is_real(args: &Vec<Data>) -> (res: (Data, String))
    ensures
        (res.0@, res.1@) == spec_proc_is_real(dv_seq(args@)),
{
    proc_is_number(args)
}

/// `and`: false as soon as any argument is the false literal, else true.
pub open spec fn spec_proc_and(args: Seq<DV>) -> (DV, Seq<char>) {
    (bool_dv(!(exists|i: int| 0 <= i < args.len() && is_false_dv(#[trigger] args[i]))), Seq::empty())
}

pub fn proc_and(args: &Vec<Data>) -> (res: (Data, String))
    ensures
        (res.0@, res.1@) == spec_proc_and(dv_seq(args@)),
{
    proof {
        lemma_dv_seq(args@);
    }
    let n = args.len();
    let mut i: usize = 0;
    while i < n
        invariant
            i <= n,
            n == args@.len(),
            forall|j: int| 0 <= j < i ==> !is_false_dv((#[trigger] args@[j])@),
        decreases n - i,
    {
        if is_false_sym(&args[i]) {
            proof {
                lemma_dv_seq(args@);
                assert(is_false_dv(dv_seq(args@)[i as int]));
            }
            return (bool_data(false), String::new());
        }
        i += 1;
    }
    proof {
        lemma_dv_seq(args@);
        assert forall|j: int| 0 <= j < dv_seq(args@).len() implies !is_false_dv(
            #[trigger] dv_seq(args@)[j],
        ) by {
            assert(dv_seq(args@)[j] == dv(args@[j]));
            assert(!is_false_dv(args@[j]@));
        }
    }
    (bool_data(true), String::new())
}

/// `or`: true as soon as any argument is not the false literal, else
/// false.
pub open spec fn spec_proc_or(args: Seq<DV>) -> (DV, Seq<char>) {
    (bool_dv(exists|i: int| 0 <= i < args.len() && !is_false_dv(#[trigger] args[i])), Seq::empty())
}

pub fn proc_or(args: &Vec<Data>) -> (res: (Data, String))
    ensures
        (res.0@, res.1@) == spec_proc_or(dv_seq(args@)),
{
    proof {
        lemma_dv_seq(args@);
    }
    let n = args.len();
    let mut i: usize = 0;
    while i < n
        invariant
            i <= n,
            n == args@.len(),
            forall|j: int| 0 <= j < i ==> is_false_dv((#[trigger] args@[j])@),
        decreases n - i,
    {
        if !is_false_sym(&args[i]) {
            proof {
                lemma_dv_seq(args@);
                assert(!is_false_dv(dv_seq(args@)[i as int]));
            }
            return (bool_data(true), String::new());
        }
        i += 1;
    }
    proof {
        lemma_dv_seq(args@);
        assert forall|j: int| 0 <= j < dv_seq(args@).len() implies is_false_dv(
            #[trigger] dv_seq(args@)[j],
        ) by {
            assert(dv_seq(args@)[j] == dv(args@[j]));
            assert(is_false_dv(args@[j]@));
        }
    }
    (bool_data(false), String::new())
}


/// The outcome of combining two numbers.
pub enum ArithOut {
    Val(Num),
    TooBig,
    ZeroDiv,
}

/// A stored decimal with its sign turned around; zero keeps its form.
pub open spec fn dec_neg_spec(d: Dec) -> Dec {
    if d.m == 0 {
        d
    } else {
        Dec { neg: !d.neg, m: d.m, e: d.e }
    }
}

fn dec_neg(d: Dec) -> (r: Dec)
    requires
        dec_ok(d),
    ensures
        r == dec_neg_spec(d),
        dec_ok(r),
{
    if d.m == 0 {
        d
    } else {
        Dec { neg: !d.neg, m: d.m, e: d.e }
    }
}

/// One arithmetic step: the running value combined with the next operand.
pub open spec fn combine_spec(res: Num, v: Num, is_mul: bool, is_inv: bool) -> ArithOut {
    if res is I && v is I && !(is_mul && is_inv) {
        let x = res->I_0 as int;
        let y = v->I_0 as int;
        let out: int = if is_mul {
            x * y
        } else if is_inv {
            x - y
        } else {
            x + y
        };
        if i64::MIN <= out <= i64::MAX {
            ArithOut::Val(Num::I(out as i64))
        } else {
            ArithOut::TooBig
        }
    } else {
        let a = num_dec(res);
        let b = num_dec(v);
        if is_mul && is_inv {
            if b.m == 0 {
                ArithOut::ZeroDiv
            } else {
                match dec_div_spec(a, b) {
                    Some(d) => ArithOut::Val(Num::R(d)),
                    None => ArithOut::TooBig,
                }
            }
        } else if is_mul {
            match dec_mul_spec(a, b) {
                Some(d) => ArithOut::Val(Num::R(d)),
                None => ArithOut::TooBig,
            }
        } else if is_inv {
            match dec_add_spec(a, dec_neg_spec(b)) {
                Some(d) => ArithOut::Val(Num::R(d)),
                None => ArithOut::TooBig,
            }
        } else {
            match dec_add_spec(a, b) {
                Some(d) => ArithOut::Val(Num::R(d)),
                None => ArithOut::TooBig,
            }
        }
    }
}

fn combine(res: Num, v: Num, is_mul: bool, is_inv: bool) -> (r: ArithOut)
    requires
        num_wf(res),
        num_wf(v),
    ensures
        r == combine_spec(res, v, is_mul, is_inv),
        r matches ArithOut::Val(n) ==> num_wf(n),
{
    match (res, v) {
        (Num::I(x), Num::I(y)) if !(is_mul && is_inv) => {
            let out: Option<i64> = if is_mul {
                x.checked_mul(y)
            } else if is_inv {
                x.checked_sub(y)
            } else {
                x.checked_add(y)
            };
            match out {
                Some(o) => ArithOut::Val(Num::I(o)),
                None => ArithOut::TooBig,
            }
        },
        _ => {
            let a = num_to_dec(res);
            let b = num_to_dec(v);
            if is_mul && is_inv {
                if b.m == 0 {
                    ArithOut::ZeroDiv
                } else {
                    match dec_div(a, b) {
                        Some(d) => ArithOut::Val(Num::R(d)),
                        None => ArithOut::TooBig,
                    }
                }
            } else if is_mul {
                match dec_mul(a, b) {
                    Some(d) => ArithOut::Val(Num::R(d)),
                    None => ArithOut::TooBig,
                }
            } else if is_inv {
                match dec_add(a, dec_neg(b)) {
                    Some(d) => ArithOut::Val(Num::R(d)),
                    None => ArithOut::TooBig,
                }
            } else {
                match dec_add(a, b) {
                    Some(d) => ArithOut::Val(Num::R(d)),
                    None => ArithOut::TooBig,
                }
            }
        },
    }
}

/// The name under which a combined arithmetic procedure reports.
pub open spec fn arith_name(is_mul: bool, is_inv: bool) -> Seq<char> {
    if is_mul {
        if is_inv {
            "/"@
        } else {
            "*"@
        }
    } else {
        if is_inv {
            "-"@
        } else {
            "+"@
        }
    }
}

fn arith_name_str(is_mul: bool, is_inv: bool) -> (r: &'static str)
    ensures
        r@ == arith_name(is_mul, is_inv),
{
    if is_mul {
        if is_inv {
            "/"
        } else {
            "*"
        }
    } else {
        if is_inv {
            "-"
        } else {
            "+"
        }
    }
}

/// The numeric result rendered as a datum: integers as integer data,
/// stored decimals as real data with canonical text.
pub open spec fn num_data(n: Num) -> DV {
    match n {
        Num::I(i) => leaf_dv(DataType::Integer, int_text(i as int), 0),
        Num::R(d) => leaf_dv(DataType::Real, render_dec_spec(d), 0),
    }
}

fn num_to_data(n: Num) -> (res: Data)
    requires
        num_wf(n),
    ensures
        res@ == num_data(n),
{
    match n {
        Num::I(i) => Data::from_string(DataType::Integer, i64_string(i)),
        Num::R(d) => Data::from_string(DataType::Real, render_dec(d)),
    }
}

/// The diagnostic for an operand the machine cannot hold as a number.
pub open spec fn too_big_diag(name: Seq<char>, x: DV) -> Seq<char> {
    diag(ErrKind::ContractViolation, name, "a number this machine can hold"@, spec_render(x, 0))
}

fn too_big_text(name: &str, d: &Data) -> (res: String)
    ensures
        res@ == too_big_diag(name@, d@),
{
    let shown = d.render(0);
    error_text(ErrKind::ContractViolation, name, "a number this machine can hold", shown.as_str())
}

/// Folding the remaining operands into the running value.
pub open spec fn spec_arith_loop(args: Seq<DV>, i: int, res: Num, is_mul: bool, is_inv: bool)
    -> (DV, Seq<char>)
    decreases args.len() - i,
{
    let name = arith_name(is_mul, is_inv);
    if i < 0 {
        (invalid_dv(), Seq::empty())
    } else if i >= args.len() {
        (num_data(res), Seq::empty())
    } else if !is_number_kind(args[i]) {
        (invalid_dv(), diag(ErrKind::ContractViolation, name, "number?"@, spec_render(args[i], 0)))
    } else {
        match num_of(args[i]) {
            None => (invalid_dv(), too_big_diag(name, args[i])),
            Some(v) => match combine_spec(res, v, is_mul, is_inv) {
                ArithOut::Val(next) => spec_arith_loop(args, i + 1, next, is_mul, is_inv),
                ArithOut::TooBig => (invalid_dv(), too_big_diag(name, args[i])),
                ArithOut::ZeroDiv => (
                    invalid_dv(),
                    diag(
                        ErrKind::ContractViolation,
                        name,
                        "a non-zero divisor"@,
                        spec_render(args[i], 0),
                    ),
                ),
            },
        }
    }
}

/// The combined arithmetic procedure behind `+ - * /`: variadic, with the
/// result an integer until any operand is real or the operator divides;
/// one operand alone negates or inverts under the inverting operators.
pub open spec fn spec_arith(args: Seq<DV>, is_mul: bool, is_inv: bool) -> (DV, Seq<char>) {
    let name = arith_name(is_mul, is_inv);
    if is_inv && args.len() == 0 {
        (invalid_dv(), diag(ErrKind::ArityMismatch, name, "at least 1"@, "0"@))
    } else if is_inv && !is_number_kind(args[0]) {
        (invalid_dv(), diag(ErrKind::ContractViolation, name, "number?"@, spec_render(args[0], 0)))
    } else if is_inv {
        match num_of(args[0]) {
            None => (invalid_dv(), too_big_diag(name, args[0])),
            Some(first) => {
                if args.len() == 1 {
                    if is_mul {
                        let b = num_dec(first);
                        if b.m == 0 {
                            (
                                invalid_dv(),
                                diag(
                                    ErrKind::ContractViolation,
                                    name,
                                    "a non-zero divisor"@,
                                    spec_render(args[0], 0),
                                ),
                            )
                        } else {
                            match dec_div_spec(Dec { neg: false, m: 1, e: 0 }, b) {
                                Some(d) => (num_data(Num::R(d)), Seq::empty()),
                                None => (invalid_dv(), too_big_diag(name, args[0])),
                            }
                        }
                    } else {
                        match first {
                            Num::R(d) => (num_data(Num::R(dec_neg_spec(d))), Seq::empty()),
                            Num::I(x) => if x == i64::MIN {
                                (invalid_dv(), too_big_diag(name, args[0]))
                            } else {
                                (num_data(Num::I((-(x as int)) as i64)), Seq::empty())
                            },
                        }
                    }
                } else {
                    let seed: Num = if is_mul || first is R {
                        Num::R(num_dec(first))
                    } else {
                        first
                    };
                    spec_arith_loop(args, 1, seed, is_mul, is_inv)
                }
            },
        }
    } else {
        spec_arith_loop(
            args,
            0,
            Num::I(
                if is_mul {
                    1
                } else {
                    0
                },
            ),
            is_mul,
            is_inv,
        )
    }
}

fn arith_loop(args: &Vec<Data>, i: usize, res: Num, is_mul: bool, is_inv: bool) -> (out: (
    Data,
    String,
))
    requires
        num_wf(res),
    ensures
        (out.0@, out.1@) == spec_arith_loop(dv_seq(args@), i as int, res, is_mul, is_inv),
    decreases args@.len() - i,
{
    proof {
        lemma_dv_seq(args@);
    }
    let name = arith_name_str(is_mul, is_inv);
    if i >= args.len() {
        (num_to_data(res), String::new())
    } else if !(args[i].data_type == DataType::Integer || args[i].data_type
        == DataType::Real) {
        let shown = args[i].render(0);
        (invalid_data(), error_text(ErrKind::ContractViolation, name, "number?", shown.as_str()))
    } else {
        match data_num(&args[i]) {
            None => (invalid_data(), too_big_text(name, &args[i])),
            Some(v) => match combine(res, v, is_mul, is_inv) {
                ArithOut::Val(next) => arith_loop(args, i + 1, next, is_mul, is_inv),
                ArithOut::TooBig => (invalid_data(), too_big_text(name, &args[i])),
                ArithOut::ZeroDiv => {
                    let shown = args[i].render(0);
                    (
                        invalid_data(),
                        error_text(
                            ErrKind::ContractViolation,
                            name,
                            "a non-zero divisor",
                            shown.as_str(),
                        ),
                    )
                },
            },
        }
    }
}

/// The combined arithmetic procedure, as the spec function says.
pub fn proc_arithmetic_inner(args: &Vec<Data>, is_mul: bool, is_inv: bool) -> (out: (
    Data,
    String,
))
    ensures
        (out.0@, out.1@) == spec_arith(dv_seq(args@), is_mul, is_inv),
{
    proof {
        lemma_dv_seq(args@);
    }
    let name = arith_name_str(is_mul, is_inv);
    if is_inv && args.len() == 0 {
        return (invalid_data(), error_text(ErrKind::ArityMismatch, name, "at least 1", "0"));
    }
    if is_inv && !(args[0].data_type == DataType::Integer || args[0].data_type
        == DataType::Real) {
        let shown = args[0].render(0);
        return (
            invalid_data(),
            error_text(ErrKind::ContractViolation, name, "number?", shown.as_str()),
        );
    }
    if is_inv {
        match data_num(&args[0]) {
            None => (invalid_data(), too_big_text(name, &args[0])),
            Some(first) => {
                if args.len() == 1 {
                    if is_mul {
                        let b = num_to_dec(first);
                        if b.m == 0 {
                            let shown = args[0].render(0);
                            (
                                invalid_data(),
                                error_text(
                                    ErrKind::ContractViolation,
                                    name,
                                    "a non-zero divisor",
                                    shown.as_str(),
                                ),
                            )
                        } else {
                            match dec_div(Dec { neg: false, m: 1, e: 0 }, b) {
                                Some(d) => (num_to_data(Num::R(d)), String::new()),
                                None => (invalid_data(), too_big_text(name, &args[0])),
                            }
                        }
                    } else {
                        match first {
                            Num::R(d) => (num_to_data(Num::R(dec_neg(d))), String::new()),
                            Num::I(x) => if x == i64::MIN {
                                (invalid_data(), too_big_text(name, &args[0]))
                            } else {
                                (num_to_data(Num::I(-x)), String::new())
                            },
                        }
                    }
                } else {
                    let seed: Num = if is_mul || matches!(first, Num::R(_)) {
                        Num::R(num_to_dec(first))
                    } else {
                        first
                    };
                    arith_loop(args, 1, seed, is_mul, is_inv)
                }
            },
        }
    } else {
        let seed = Num::I(
            if is_mul {
                1
            } else {
                0
            },
        );
        arith_loop(args, 0, seed, is_mul, is_inv)
    }
}

pub fn proc_add(args: &Vec<Data>) -> (out: (Data, String))
    ensures
        (out.0@, out.1@) == spec_arith(dv_seq(args@), false, false),
{
    proc_arithmetic_inner(args, false, false)
}

pub fn proc_subtract(args: &Vec<Data>) -> (out: (Data, String))
    ensures
        (out.0@, out.1@) == spec_arith(dv_seq(args@), false, true),
{
    proc_arithmetic_inner(args, false, true)
}

pub fn proc_multiply(args: &Vec<Data>) -> (out: (Data, String))
    ensures
        (out.0@, out.1@) == spec_arith(dv_seq(args@), true, false),
{
    proc_arithmetic_inner(args, true, false)
}

pub fn proc_divide(args: &Vec<Data>) -> (out: (Data, String))
    ensures
        (out.0@, out.1@) == spec_arith(dv_seq(args@), true, true),
{
    proc_arithmetic_inner(args, true, true)
}


/// The chain orderings the comparison procedures check.
#[derive(Clone, Copy, PartialEq, Eq, Structural, Debug)]
pub enum CompareOrder {
    Less,
    LessEq,
    GreaterEq,
    Greater,
}

/// Whether an outcome of comparing neighbours satisfies the chain order.
pub open spec fn cmp_matches(cmp_ord: CompareOrder, ord: Ordering) -> bool {
    match ord {
        Ordering::Less => cmp_ord == CompareOrder::Less || cmp_ord == CompareOrder::LessEq,
        Ordering::Equal => cmp_ord == CompareOrder::GreaterEq || cmp_ord == CompareOrder::LessEq,
        Ordering::Greater => cmp_ord == CompareOrder::Greater || cmp_ord
            == CompareOrder::GreaterEq,
    }
}

/// Whether an outcome of comparing neighbours satisfies the chain order.
pub fn cmp_exactly(cmp_ord: &CompareOrder, ord: Ordering) -> (r: bool)
    ensures
        r == cmp_matches(*cmp_ord, ord),
{
    match ord {
        Ordering::Less => match cmp_ord {
            CompareOrder::Less | CompareOrder::LessEq => true,
            _ => false,
        },
        Ordering::Equal => match cmp_ord {
            CompareOrder::GreaterEq | CompareOrder::LessEq => true,
            _ => false,
        },
        Ordering::Greater => match cmp_ord {
            CompareOrder::Greater | CompareOrder::GreaterEq => true,
            _ => false,
        },
    }
}

/// How two held numbers compare: machine integers exactly, anything else
/// through the stored decimals.
pub open spec fn num_cmp_spec(a: Num, b: Num) -> Ordering {
    if a is I && b is I {
        if a->I_0 < b->I_0 {
            Ordering::Less
        } else if a->I_0 == b->I_0 {
            Ordering::Equal
        } else {
            Ordering::Greater
        }
    } else {
        dec_cmp_spec(num_dec(a), num_dec(b))
    }
}

fn num_cmp(a: Num, b: Num) -> (r: Ordering)
    requires
        num_wf(a),
        num_wf(b),
    ensures
        r == num_cmp_spec(a, b),
{
    match (a, b) {
        (Num::I(x), Num::I(y)) => {
            if x < y {
                Ordering::Less
            } else if x == y {
                Ordering::Equal
            } else {
                Ordering::Greater
            }
        },
        _ => dec_cmp(num_to_dec(a), num_to_dec(b)),
    }
}

/// Walking the argument chain: each neighbour pair must satisfy the
/// order; integer comparison holds only while every argument so far was
/// integer data.
pub open spec fn spec_cmp_loop(
    args: Seq<DV>,
    i: int,
    last: Num,
    check_int: bool,
    cmp_ord: CompareOrder,
    name: Seq<char>,
) -> (DV, Seq<char>)
    decreases args.len() - i,
{
    if i < 0 {
        (invalid_dv(), Seq::empty())
    } else if i >= args.len() {
        (true_dv(), Seq::empty())
    } else if !is_number_kind(args[i]) {
        (invalid_dv(), diag(ErrKind::ContractViolation, name, "number?"@, spec_render(args[i], 0)))
    } else {
        match num_of(args[i]) {
            None => (invalid_dv(), too_big_diag(name, args[i])),
            Some(v) => {
                let check2 = check_int && args[i].kind == DataType::Integer;
                let curr: Num = if check2 {
                    v
                } else {
                    Num::R(num_dec(v))
                };
                if i != 0 && !cmp_matches(cmp_ord, num_cmp_spec(last, curr)) {
                    (false_dv(), Seq::empty())
                } else {
                    spec_cmp_loop(args, i + 1, curr, check2, cmp_ord, name)
                }
            },
        }
    }
}

/// The chain comparison behind `= < <= > >=`-style procedures: each
/// argument against the one before it; one argument alone is trivially
/// true.
pub open spec fn spec_compare(args: Seq<DV>, cmp_ord: CompareOrder, name: Seq<char>) -> (
    DV,
    Seq<char>,
) {
    if args.len() == 0 {
        (invalid_dv(), diag(ErrKind::ArityMismatch, name, "at least 1"@, "0"@))
    } else if args.len() == 1 {
        (true_dv(), Seq::empty())
    } else {
        spec_cmp_loop(args, 0, Num::I(0), true, cmp_ord, name)
    }
}

fn cmp_loop(
    args: &Vec<Data>,
    i: usize,
    last: Num,
    check_int: bool,
    cmp_ord: &CompareOrder,
    name: &str,
) -> (out: (Data, String))
    requires
        num_wf(last),
    ensures
        (out.0@, out.1@) == spec_cmp_loop(
            dv_seq(args@),
            i as int,
            last,
            check_int,
            *cmp_ord,
            name@,
        ),
    decreases args@.len() - i,
{
    proof {
        lemma_dv_seq(args@);
    }
    if i >= args.len() {
        (new_true_sym(), String::new())
    } else if !(args[i].data_type == DataType::Integer || args[i].data_type
        == DataType::Real) {
        let shown = args[i].render(0);
        (invalid_data(), error_text(ErrKind::ContractViolation, name, "number?", shown.as_str()))
    } else {
        match data_num(&args[i]) {
            None => (invalid_data(), too_big_text(name, &args[i])),
            Some(v) => {
                let check2 = check_int && args[i].data_type == DataType::Integer;
                let curr: Num = if check2 {
                    v
                } else {
                    Num::R(num_to_dec(v))
                };
                if i != 0 && !cmp_exactly(cmp_ord, num_cmp(last, curr)) {
                    (new_false_sym(), String::new())
                } else {
                    cmp_loop(args, i + 1, curr, check2, cmp_ord, name)
                }
            },
        }
    }
}

/// The chain comparison, as the spec function says.
pub fn proc_compare_helper(args: &Vec<Data>, cmp_ord: CompareOrder, op: &str) -> (out: (
    Data,
    String,
))
    ensures
        (out.0@, out.1@) == spec_compare(dv_seq(args@), cmp_ord, op@),
{
    proof {
        lemma_dv_seq(args@);
    }
    if args.len() == 0 {
        (invalid_data(), error_text(ErrKind::ArityMismatch, op, "at least 1", "0"))
    } else if args.len() == 1 {
        (new_true_sym(), String::new())
    } else {
        cmp_loop(args, 0, Num::I(0), true, &cmp_ord, op)
    }
}

pub fn proc_less(args: &Vec<Data>) -> (out: (Data, String))
    ensures
        (out.0@, out.1@) == spec_compare(dv_seq(args@), CompareOrder::Less, "<"@),
{
    proc_compare_helper(args, CompareOrder::Less, "<")
}

pub fn proc_less_or_equal(args: &Vec<Data>) -> (out: (Data, String))
    ensures
        (out.0@, out.1@) == spec_compare(dv_seq(args@), CompareOrder::LessEq, "<="@),
{
    proc_compare_helper(args, CompareOrder::LessEq, "<=")
}

pub fn proc_greater(args: &Vec<Data>) -> (out: (Data, String))
    ensures
        (out.0@, out.1@) == spec_compare(dv_seq(args@), CompareOrder::Greater, ">"@),
{
    proc_compare_helper(args, CompareOrder::Greater, ">")
}

pub fn proc_greater_or_equal(args: &Vec<Data>) -> (out: (Data, String))
    ensures
        (out.0@, out.1@) == spec_compare(dv_seq(args@), CompareOrder::GreaterEq, ">="@),
{
    proc_compare_helper(args, CompareOrder::GreaterEq, ">=")
}

/// Walking the arguments of `=`: every argument must equal the first;
/// the first argument's kind decides whether comparison stays exact over
/// machine integers.
pub open spec fn spec_eq_loop(args: Seq<DV>, i: int, first_is_int: bool, first: Num) -> (
    DV,
    Seq<char>,
)
    decreases args.len() - i,
{
    if i < 0 {
        (invalid_dv(), Seq::empty())
    } else if i >= args.len() {
        (true_dv(), Seq::empty())
    } else if !is_number_kind(args[i]) {
        (invalid_dv(), diag(ErrKind::ContractViolation, "="@, "number?"@, spec_render(args[i], 0)))
    } else {
        match num_of(args[i]) {
            None => (invalid_dv(), too_big_diag("="@, args[i])),
            Some(v) => {
                let same: bool = if first_is_int && args[i].kind == DataType::Integer {
                    first == v
                } else {
                    dec_cmp_spec(num_dec(first), num_dec(v)) == Ordering::Equal
                };
                if !same {
                    (false_dv(), Seq::empty())
                } else {
                    spec_eq_loop(args, i + 1, first_is_int, first)
                }
            },
        }
    }
}

/// `=`: every argument equals the first.
pub open spec fn spec_proc_equals(args: Seq<DV>) -> (DV, Seq<char>) {
    if args.len() == 0 {
        (invalid_dv(), diag(ErrKind::ArityMismatch, "="@, "at least 1"@, "0"@))
    } else if !is_number_kind(args[0]) {
        (invalid_dv(), diag(ErrKind::ContractViolation, "="@, "number?"@, spec_render(args[0], 0)))
    } else {
        match num_of(args[0]) {
            None => (invalid_dv(), too_big_diag("="@, args[0])),
            Some(first) => spec_eq_loop(
                args,
                0,
                args[0].kind == DataType::Integer,
                first,
            ),
        }
    }
}

fn eq_loop(args: &Vec<Data>, i: usize, first_is_int: bool, first: Num) -> (out: (Data, String))
    requires
        num_wf(first),
    ensures
        (out.0@, out.1@) == spec_eq_loop(dv_seq(args@), i as int, first_is_int, first),
    decreases args@.len() - i,
{
    proof {
        lemma_dv_seq(args@);
    }
    if i >= args.len() {
        (new_true_sym(), String::new())
    } else if !(args[i].data_type == DataType::Integer || args[i].data_type
        == DataType::Real) {
        let shown = args[i].render(0);
        (invalid_data(), error_text(ErrKind::ContractViolation, "=", "number?", shown.as_str()))
    } else {
        match data_num(&args[i]) {
            None => (invalid_data(), too_big_text("=", &args[i])),
            Some(v) => {
                let same: bool = if first_is_int && args[i].data_type == DataType::Integer {
                    match (first, v) {
                        (Num::I(x), Num::I(y)) => x == y,
                        _ => first == v,
                    }
                } else {
                    matches!(dec_cmp(num_to_dec(first), num_to_dec(v)), Ordering::Equal)
                };
                if !same {
                    (new_false_sym(), String::new())
                } else {
                    eq_loop(args, i + 1, first_is_int, first)
                }
            },
        }
    }
}

/// `=`, as the spec function says.
pub fn proc_equals(args: &Vec<Data>) -> (out: (Data, String))
    ensures
        (out.0@, out.1@) == spec_proc_equals(dv_seq(args@)),
{
    proof {
        lemma_dv_seq(args@);
    }
    if args.len() == 0 {
        return (invalid_data(), error_text(ErrKind::ArityMismatch, "=", "at least 1", "0"));
    }
    if !(args[0].data_type == DataType::Integer || args[0].data_type == DataType::Real) {
        let shown = args[0].render(0);
        return (
            invalid_data(),
            error_text(ErrKind::ContractViolation, "=", "number?", shown.as_str()),
        );
    }
    match data_num(&args[0]) {
        None => (invalid_data(), too_big_text("=", &args[0])),
        Some(first) => eq_loop(args, 0, args[0].data_type == DataType::Integer, first),
    }
}


/// Truncating division of machine integers, as mathematics.
pub open spec fn tdiv64(a: int, b: int) -> int
    recommends
        b != 0,
{
    let q = abs64(a) / abs64(b);
    if (a < 0) != (b < 0) {
        -q
    } else {
        q
    }
}

/// The remainder truncating division leaves.
pub open spec fn tmod64(a: int, b: int) -> int
    recommends
        b != 0,
{
    a - b * tdiv64(a, b)
}

pub open spec fn abs64(x: int) -> int {
    if x < 0 {
        -x
    } else {
        x
    }
}

/// Truncating division on machine words.
fn divide_i64(a: i64, b: i64) -> (r: (i64, i64))
    requires
        b != 0,
        !(a == i64::MIN && b == -1),
    ensures
        r.0 as int == tdiv64(a as int, b as int),
        r.1 as int == tmod64(a as int, b as int),
{
    let ua: u64 = if a < 0 {
        (-(a as i128)) as u64
    } else {
        a as u64
    };
    let ub: u64 = if b < 0 {
        (-(b as i128)) as u64
    } else {
        b as u64
    };
    let q: u64 = ua / ub;
    let m: u64 = ua % ub;
    proof {
        assert(q == abs64(a as int) / abs64(b as int));
        assert(ua == abs64(a as int) && ub == abs64(b as int));
        assert(q <= ua) by (nonlinear_arith)
            requires
                ub >= 1,
                q == ua / ub,
        ;
        assert(ua == ub * q + m) by (nonlinear_arith)
            requires
                ub >= 1,
                q == ua / ub,
                m == ua % ub,
        ;
    }
    proof {
        if !((a < 0) != (b < 0)) {
            if a >= 0 {
                assert(q <= ua);
            } else if b == -1 {
                assert(ua <= 9223372036854775807);
                assert(q <= ua);
            } else {
                assert(ub >= 2);
                assert(q <= ua / 2) by (nonlinear_arith)
                    requires
                        ub >= 2,
                        q == ua / ub,
                ;
            }
        }
    }
    let qi: i64 = if (a < 0) != (b < 0) {
        -((q as i128)) as i64
    } else {
        q as i64
    };
    let mi: i64 = if a < 0 {
        -((m as i128)) as i64
    } else {
        m as i64
    };
    proof {
        if a >= 0 && b >= 0 {
            assert(mi as int == a as int - b as int * (qi as int)) by (nonlinear_arith)
                requires
                    ua == ub * q + m,
                    ua == a as int,
                    ub == b as int,
                    qi == q,
                    mi == m,
            ;
        } else if a >= 0 && b < 0 {
            assert(mi as int == a as int - b as int * (qi as int)) by (nonlinear_arith)
                requires
                    ua == ub * q + m,
                    ua == a as int,
                    ub == -(b as int),
                    qi as int == -(q as int),
                    mi == m,
            ;
        } else if a < 0 && b >= 0 {
            assert(mi as int == a as int - b as int * (qi as int)) by (nonlinear_arith)
                requires
                    ua == ub * q + m,
                    ua == -(a as int),
                    ub == b as int,
                    qi as int == -(q as int),
                    mi as int == -(m as int),
            ;
        } else {
            assert(mi as int == a as int - b as int * (qi as int)) by (nonlinear_arith)
                requires
                    ua == ub * q + m,
                    ua == -(a as int),
                    ub == -(b as int),
                    qi == q,
                    mi as int == -(m as int),
            ;
        }
        assert(qi as int == tdiv64(a as int, b as int));
        assert(mi as int == tmod64(a as int, b as int));
    }
    (qi, mi)
}

/// The machine integer a datum's text denotes, for integer data or real
/// data holding a whole value.
pub open spec fn int_value_of(x: DV) -> Option<i64> {
    match num_of(x) {
        Some(Num::I(v)) => Some(v),
        Some(Num::R(d)) => if d.e == 0 && d.m <= i64::MAX as u128 {
            Some(
                (if d.neg {
                    -(d.m as int)
                } else {
                    d.m as int
                }) as i64,
            )
        } else {
            None
        },
        None => None,
    }
}

fn int_value_data(d: &Data) -> (r: Option<i64>)
    ensures
        r == int_value_of(d@),
{
    match data_num(d) {
        Some(Num::I(v)) => Some(v),
        Some(Num::R(x)) => if x.e == 0 && x.m <= 9223372036854775807u128 {
            if x.neg {
                Some(-((x.m as i128)) as i64)
            } else {
                Some(x.m as i64)
            }
        } else {
            None
        },
        None => None,
    }
}

/// `remainder` and `quotient`: two whole numbers, truncating division.
pub open spec fn spec_div_inner(args: Seq<DV>, get_rem: bool) -> (DV, Seq<char>) {
    let name: Seq<char> = if get_rem {
        "remainder"@
    } else {
        "quotient"@
    };
    if args.len() != 2 {
        (invalid_dv(), diag(ErrKind::ArityMismatch, name, "2"@, int_text(args.len() as int)))
    } else if !is_integer_dv(args[0]) {
        (
            invalid_dv(),
            diag(ErrKind::ContractViolation, name, "integer?"@, spec_render(args[0], 0)),
        )
    } else if !is_integer_dv(args[1]) {
        (
            invalid_dv(),
            diag(ErrKind::ContractViolation, name, "integer?"@, spec_render(args[1], 0)),
        )
    } else {
        match (int_value_of(args[0]), int_value_of(args[1])) {
            (Some(lhs), Some(rhs)) => {
                if rhs == 0 {
                    (
                        invalid_dv(),
                        diag(
                            ErrKind::ContractViolation,
                            name,
                            "a non-zero divisor"@,
                            spec_render(args[1], 0),
                        ),
                    )
                } else if lhs == i64::MIN && rhs == -1 {
                    (invalid_dv(), too_big_diag(name, args[0]))
                } else if get_rem {
                    (
                        leaf_dv(DataType::Integer, int_text(tmod64(lhs as int, rhs as int)), 0),
                        Seq::empty(),
                    )
                } else {
                    (
                        leaf_dv(DataType::Integer, int_text(tdiv64(lhs as int, rhs as int)), 0),
                        Seq::empty(),
                    )
                }
            },
            (None, _) => (invalid_dv(), too_big_diag(name, args[0])),
            (_, None) => (invalid_dv(), too_big_diag(name, args[1])),
        }
    }
}

/// `remainder` and `quotient`, as the spec function says.
pub fn proc_div_inner(args: &Vec<Data>, get_rem: bool) -> (out: (Data, String))
    ensures
        (out.0@, out.1@) == spec_div_inner(dv_seq(args@), get_rem),
{
    proof {
        lemma_dv_seq(args@);
    }
    let name: &str = if get_rem {
        "remainder"
    } else {
        "quotient"
    };
    if args.len() != 2 {
        let count = usize_string(args.len());
        return (invalid_data(), error_text(ErrKind::ArityMismatch, name, "2", count.as_str()));
    }
    if !is_integer_data(&args[0]) {
        let shown = args[0].render(0);
        return (
            invalid_data(),
            error_text(ErrKind::ContractViolation, name, "integer?", shown.as_str()),
        );
    }
    if !is_integer_data(&args[1]) {
        let shown = args[1].render(0);
        return (
            invalid_data(),
            error_text(ErrKind::ContractViolation, name, "integer?", shown.as_str()),
        );
    }
    let lhs_opt = int_value_data(&args[0]);
    let rhs_opt = int_value_data(&args[1]);
    match (lhs_opt, rhs_opt) {
        (Some(lhs), Some(rhs)) => {
            if rhs == 0 {
                let shown = args[1].render(0);
                (
                    invalid_data(),
                    error_text(
                        ErrKind::ContractViolation,
                        name,
                        "a non-zero divisor",
                        shown.as_str(),
                    ),
                )
            } else if lhs == i64::MIN && rhs == -1 {
                (invalid_data(), too_big_text(name, &args[0]))
            } else {
                let qm = divide_i64(lhs, rhs);
                if get_rem {
                    (Data::from_string(DataType::Integer, i64_string(qm.1)), String::new())
                } else {
                    (Data::from_string(DataType::Integer, i64_string(qm.0)), String::new())
                }
            }
        },
        (None, _) => (invalid_data(), too_big_text(name, &args[0])),
        (_, None) => (invalid_data(), too_big_text(name, &args[1])),
    }
}

pub fn proc_remainder(args: &Vec<Data>) -> (out: (Data, String))
    ensures
        (out.0@, out.1@) == spec_div_inner(dv_seq(args@), true),
{
    proc_div_inner(args, true)
}

pub fn proc_quotient(args: &Vec<Data>) -> (out: (Data, String))
    ensures
        (out.0@, out.1@) == spec_div_inner(dv_seq(args@), false),
{
    proc_div_inner(args, false)
}

/// `expt`: a real power by repeated multiplication; the exponent must be
/// a whole number of modest size.
pub open spec fn spec_proc_expt(args: Seq<DV>) -> (DV, Seq<char>) {
    if args.len() != 2 {
        (invalid_dv(), diag(ErrKind::ArityMismatch, "expt"@, "2"@, int_text(args.len() as int)))
    } else if !(is_number_kind(args[0]) && is_number_kind(args[1])) {
        (
            invalid_dv(),
            diag(
                ErrKind::ContractViolation,
                "expt"@,
                "number?"@,
                spec_render(args[0], 0) + " and "@ + spec_render(args[0], 0),
            ),
        )
    } else {
        match (num_of(args[0]), num_of(args[1])) {
            (Some(base), Some(expv)) => {
                match int_value_of(args[1]) {
                    Some(n) => if -65535 <= n <= 65535 {
                        let mag: nat = abs64(n as int) as nat;
                        match dec_pow_spec(num_dec(base), mag) {
                            Some(p) => if n >= 0 {
                                (leaf_dv(DataType::Real, render_dec_spec(p), 0), Seq::empty())
                            } else if p.m == 0 {
                                (
                                    invalid_dv(),
                                    diag(
                                        ErrKind::ContractViolation,
                                        "expt"@,
                                        "a non-zero base"@,
                                        spec_render(args[0], 0),
                                    ),
                                )
                            } else {
                                match dec_div_spec(Dec { neg: false, m: 1, e: 0 }, p) {
                                    Some(q) => (
                                        leaf_dv(DataType::Real, render_dec_spec(q), 0),
                                        Seq::empty(),
                                    ),
                                    None => (invalid_dv(), too_big_diag("expt"@, args[0])),
                                }
                            },
                            None => (invalid_dv(), too_big_diag("expt"@, args[0])),
                        }
                    } else {
                        (
                            invalid_dv(),
                            diag(
                                ErrKind::ContractViolation,
                                "expt"@,
                                "a small whole exponent"@,
                                spec_render(args[1], 0),
                            ),
                        )
                    },
                    None => (
                        invalid_dv(),
                        diag(
                            ErrKind::ContractViolation,
                            "expt"@,
                            "a small whole exponent"@,
                            spec_render(args[1], 0),
                        ),
                    ),
                }
            },
            (None, _) => (invalid_dv(), too_big_diag("expt"@, args[0])),
            (_, None) => (invalid_dv(), too_big_diag("expt"@, args[1])),
        }
    }
}

/// `expt`, as the spec function says.
pub fn proc_expt(args: &Vec<Data>) -> (out: (Data, String))
    ensures
        (out.0@, out.1@) == spec_proc_expt(dv_seq(args@)),
{
    proof {
        lemma_dv_seq(args@);
    }
    if args.len() != 2 {
        let count = usize_string(args.len());
        return (invalid_data(), error_text(ErrKind::ArityMismatch, "expt", "2", count.as_str()));
    }
    let both_nums = (args[0].data_type == DataType::Integer || args[0].data_type
        == DataType::Real) && (args[1].data_type == DataType::Integer || args[1].data_type
        == DataType::Real);
    if !both_nums {
        let mut shown = args[0].render(0);
        shown.append(" and ");
        let again = args[0].render(0);
        shown.append(again.as_str());
        return (
            invalid_data(),
            error_text(ErrKind::ContractViolation, "expt", "number?", shown.as_str()),
        );
    }
    let base_opt = data_num(&args[0]);
    let exp_opt = data_num(&args[1]);
    match (base_opt, exp_opt) {
        (Some(base), Some(_)) => {
            match int_value_data(&args[1]) {
                Some(n) => if -65535 <= n && n <= 65535 {
                    let mag: u32 = if n < 0 {
                        (-n) as u32
                    } else {
                        n as u32
                    };
                    match dec_pow(num_to_dec(base), mag) {
                        Some(p) => if n >= 0 {
                            (Data::from_string(DataType::Real, render_dec(p)), String::new())
                        } else if p.m == 0 {
                            let shown = args[0].render(0);
                            (
                                invalid_data(),
                                error_text(
                                    ErrKind::ContractViolation,
                                    "expt",
                                    "a non-zero base",
                                    shown.as_str(),
                                ),
                            )
                        } else {
                            match dec_div(Dec { neg: false, m: 1, e: 0 }, p) {
                                Some(q) => (
                                    Data::from_string(DataType::Real, render_dec(q)),
                                    String::new(),
                                ),
                                None => (invalid_data(), too_big_text("expt", &args[0])),
                            }
                        },
                        None => (invalid_data(), too_big_text("expt", &args[0])),
                    }
                } else {
                    let shown = args[1].render(0);
                    (
                        invalid_data(),
                        error_text(
                            ErrKind::ContractViolation,
                            "expt",
                            "a small whole exponent",
                            shown.as_str(),
                        ),
                    )
                },
                None => {
                    let shown = args[1].render(0);
                    (
                        invalid_data(),
                        error_text(
                            ErrKind::ContractViolation,
                            "expt",
                            "a small whole exponent",
                            shown.as_str(),
                        ),
                    )
                },
            }
        },
        (None, _) => (invalid_data(), too_big_text("expt", &args[0])),
        (_, None) => (invalid_data(), too_big_text("expt", &args[1])),
    }
}

/// Walking the arguments of `max`, keeping the largest; any real operand
/// turns the running value real.
pub open spec fn spec_max_loop(args: Seq<DV>, i: int, res: Num) -> (DV, Seq<char>)
    decreases args.len() - i,
{
    if i < 0 {
        (invalid_dv(), Seq::empty())
    } else if i >= args.len() {
        (num_data(res), Seq::empty())
    } else if !is_number_kind(args[i]) {
        (
            invalid_dv(),
            diag(ErrKind::ContractViolation, "max"@, "number?"@, spec_render(args[i], 0)),
        )
    } else {
        match num_of(args[i]) {
            None => (invalid_dv(), too_big_diag("max"@, args[i])),
            Some(v) => {
                let res2: Num = if res is I && v is R {
                    Num::R(num_dec(res))
                } else {
                    res
                };
                let curr: Num = if res2 is R && v is I {
                    Num::R(num_dec(v))
                } else {
                    v
                };
                let keep: Num = if num_cmp_spec(res2, curr) == Ordering::Less {
                    curr
                } else {
                    res2
                };
                spec_max_loop(args, i + 1, keep)
            },
        }
    }
}

/// `max`: the largest argument, real when any argument was real.
pub open spec fn spec_proc_max(args: Seq<DV>) -> (DV, Seq<char>) {
    if args.len() == 0 {
        (invalid_dv(), diag(ErrKind::ArityMismatch, "max"@, "at least 1"@, "0"@))
    } else if !is_number_kind(args[0]) {
        (
            invalid_dv(),
            diag(ErrKind::ContractViolation, "max"@, "number?"@, spec_render(args[0], 0)),
        )
    } else {
        match num_of(args[0]) {
            None => (invalid_dv(), too_big_diag("max"@, args[0])),
            Some(first) => spec_max_loop(args, 1, first),
        }
    }
}

fn max_loop(args: &Vec<Data>, i: usize, res: Num) -> (out: (Data, String))
    requires
        num_wf(res),
    ensures
        (out.0@, out.1@) == spec_max_loop(dv_seq(args@), i as int, res),
    decreases args@.len() - i,
{
    proof {
        lemma_dv_seq(args@);
    }
    if i >= args.len() {
        (num_to_data(res), String::new())
    } else if !(args[i].data_type == DataType::Integer || args[i].data_type
        == DataType::Real) {
        let shown = args[i].render(0);
        (invalid_data(), error_text(ErrKind::ContractViolation, "max", "number?", shown.as_str()))
    } else {
        match data_num(&args[i]) {
            None => (invalid_data(), too_big_text("max", &args[i])),
            Some(v) => {
                let res2: Num = if matches!(res, Num::I(_)) && matches!(v, Num::R(_)) {
                    Num::R(num_to_dec(res))
                } else {
                    res
                };
                let curr: Num = if matches!(res2, Num::R(_)) && matches!(v, Num::I(_)) {
                    Num::R(num_to_dec(v))
                } else {
                    v
                };
                let keep: Num = if matches!(num_cmp(res2, curr), Ordering::Less) {
                    curr
                } else {
                    res2
                };
                max_loop(args, i + 1, keep)
            },
        }
    }
}

/// `max`, as the spec function says.
pub fn proc_max(args: &Vec<Data>) -> (out: (Data, String))
    ensures
        (out.0@, out.1@) == spec_proc_max(dv_seq(args@)),
{
    proof {
        lemma_dv_seq(args@);
    }
    if args.len() == 0 {
        return (invalid_data(), error_text(ErrKind::ArityMismatch, "max", "at least 1", "0"));
    }
    if !(args[0].data_type == DataType::Integer || args[0].data_type == DataType::Real) {
        let shown = args[0].render(0);
        return (
            invalid_data(),
            error_text(ErrKind::ContractViolation, "max", "number?", shown.as_str()),
        );
    }
    match data_num(&args[0]) {
        None => (invalid_data(), too_big_text("max", &args[0])),
        Some(first) => max_loop(args, 1, first),
    }
}


/// `display`: the rendered text of the one argument as output, and the
/// void marker as the result.
pub open spec fn spec_proc_display(args: Seq<DV>) -> (DV, Seq<char>) {
    if args.len() != 1 {
        (invalid_dv(), arity1_diag("display"@, args.len() as int))
    } else {
        (void_dv(), spec_render(args[0], 0))
    }
}

pub fn proc_display(args: &Vec<Data>) -> (out: (Data, String))
    ensures
        (out.0@, out.1@) == spec_proc_display(dv_seq(args@)),
{
    proof {
        lemma_dv_seq(args@);
    }
    if args.len() != 1 {
        let count = usize_string(args.len());
        (invalid_data(), error_text(ErrKind::ArityMismatch, "display", "1", count.as_str()))
    } else {
        (new_void_data(), args[0].render(0))
    }
}

/// What a built-in operation gives back for evaluated arguments: the
/// result and whatever text it writes (a diagnostic, or what `display`
/// shows).
pub open spec fn spec_apply_native(op: NativeOp, args: Seq<DV>) -> (DV, Seq<char>) {
    match op {
        NativeOp::Add => spec_arith(args, false, false),
        NativeOp::Subtract => spec_arith(args, false, true),
        NativeOp::Multiply => spec_arith(args, true, false),
        NativeOp::Divide => spec_arith(args, true, true),
        NativeOp::ListOf => spec_proc_list(args),
        NativeOp::IsNull => spec_proc_is_null(args),
        NativeOp::IsPair => spec_proc_is_pair(args),
        NativeOp::IsList => spec_proc_is_list(args),
        NativeOp::IsString => spec_proc_is_string(args),
        NativeOp::Cons => spec_proc_cons(args),
        NativeOp::Car => spec_proc_car(args),
        NativeOp::Cdr => spec_proc_cdr(args),
        NativeOp::IsNumber => spec_proc_is_number(args),
        NativeOp::IsInteger => spec_proc_is_integer(args),
        NativeOp::IsReal => spec_proc_is_real(args),
        NativeOp::Equals => spec_proc_equals(args),
        NativeOp::Less => spec_compare(args, CompareOrder::Less, "<"@),
        NativeOp::LessOrEqual => spec_compare(args, CompareOrder::LessEq, "<="@),
        NativeOp::Greater => spec_compare(args, CompareOrder::Greater, ">"@),
        NativeOp::GreaterOrEqual => spec_compare(args, CompareOrder::GreaterEq, ">="@),
        NativeOp::And => spec_proc_and(args),
        NativeOp::Or => spec_proc_or(args),
        NativeOp::Remainder => spec_div_inner(args, true),
        NativeOp::Quotient => spec_div_inner(args, false),
        NativeOp::Expt => spec_proc_expt(args),
        NativeOp::Max => spec_proc_max(args),
        NativeOp::Print => spec_proc_display(args),
    }
}

/// Runs a built-in operation, as the spec function says.
pub fn apply_native(op: NativeOp, args: &Vec<Data>) -> (out: (Data, String))
    ensures
        (out.0@, out.1@) == spec_apply_native(op, dv_seq(args@)),
{
    match op {
        NativeOp::Add => proc_add(args),
        NativeOp::Subtract => proc_subtract(args),
        NativeOp::Multiply => proc_multiply(args),
        NativeOp::Divide => proc_divide(args),
        NativeOp::ListOf => proc_list(args),
        NativeOp::IsNull => proc_is_null(args),
        NativeOp::IsPair => proc_is_pair(args),
        NativeOp::IsList => proc_is_list(args),
        NativeOp::IsString => proc_is_string(args),
        NativeOp::Cons => proc_cons(args),
        NativeOp::Car => proc_car(args),
        NativeOp::Cdr => proc_cdr(args),
        NativeOp::IsNumber => proc_is_number(args),
        NativeOp::IsInteger => proc_is_integer(args),
        NativeOp::IsReal => proc_is_real(args),
        NativeOp::Equals => proc_equals(args),
        NativeOp::Less => proc_less(args),
        NativeOp::LessOrEqual => proc_less_or_equal(args),
        NativeOp::Greater => proc_greater(args),
        NativeOp::GreaterOrEqual => proc_greater_or_equal(args),
        NativeOp::And => proc_and(args),
        NativeOp::Or => proc_or(args),
        NativeOp::Remainder => proc_remainder(args),
        NativeOp::Quotient => proc_quotient(args),
        NativeOp::Expt => proc_expt(args),
        NativeOp::Max => proc_max(args),
        NativeOp::Print => proc_display(args),
    }
}

} // verus!
