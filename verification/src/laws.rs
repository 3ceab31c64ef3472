//! The general properties of the interpreter, stated over the same spec
//! functions the executable contracts use and proved once for all inputs.

use vstd::prelude::*;
use crate::data::DataType;
use crate::data::DV;
use crate::data::leaf_dv;
use crate::data::invalid_dv;
use crate::data::proc_dv;
use crate::data::is_invalid_dv;
use crate::data::NativeOp;
use crate::data::spec_render;
use crate::builtins::ErrKind;
use crate::builtins::diag;
use crate::builtins::Num;
use crate::builtins::num_of;
use crate::builtins::num_dec;
use crate::builtins::num_data;
use crate::builtins::combine_spec;
use crate::builtins::ArithOut;
use crate::builtins::spec_arith_loop;
use crate::builtins::spec_apply_native;
use crate::builtins::is_list_dv;
use crate::digits::int_text;
use crate::digits::lemma_int_text_val;
use crate::digits::is_digit;
use crate::digits::nat_text;
use crate::digits::lemma_nat_text_digits;
use crate::interpreter::EnvM;
use crate::interpreter::lookup;
use crate::interpreter::lookup_from;
use crate::interpreter::lemma_lookup_push;
use crate::interpreter::bind_map;
use crate::interpreter::FrameM;
use crate::interpreter::env_out;
use crate::interpreter::spec_eval;
use crate::interpreter::spec_eval_proc_lambda;
use crate::interpreter::spec_eval_args;
use crate::interpreter::spec_body_iter;
use crate::interpreter::spec_eval_map;
use crate::interpreter::spec_map_iter;
use crate::interpreter::spec_map_args;
use crate::numeric::Dec;
use crate::numeric::dec_ok;
use crate::numeric::dec_add_spec;
use crate::numeric::dec_of_i64_spec;
use crate::numeric::parse_real_spec;
use crate::numeric::render_dec_spec;
use crate::numeric::canon_real_spec;
use crate::numeric::lemma_parse_render_dec;
use crate::numeric::lemma_render_dec_shape;
use crate::digits::pow10;
use crate::parser::TV;
use crate::parser::spec_lex;
use crate::parser::spec_parse;
use crate::parser::len_int;
use crate::parser::len_real;
use crate::parser::len_ident;
use crate::parser::len_ident_digit;
use crate::parser::len_string;
use crate::parser::char_run;
use crate::parser::lemma_char_run;
use crate::parser::is_sd;
use crate::parser::is_schar;
use crate::parser::is_letter;
use crate::parser::is_skip_char;

verus! {

/// The names of the special forms differ from `+` and from each other.
proof fn lemma_plus_not_special()
    ensures
        "+"@ != "define"@,
        "+"@ != "lambda"@,
        "+"@ != "if"@,
        "+"@ != "cond"@,
        "+"@ != "apply"@,
        "+"@ != "map"@,
        "map"@ != "define"@,
        "map"@ != "lambda"@,
        "map"@ != "if"@,
        "map"@ != "cond"@,
        "map"@ != "apply"@,
{
    reveal_strlit("+");
    reveal_strlit("define");
    reveal_strlit("lambda");
    reveal_strlit("if");
    reveal_strlit("cond");
    reveal_strlit("apply");
    reveal_strlit("map");
    assert("+"@.len() == 1 && "define"@.len() == 6 && "lambda"@.len() == 6 && "if"@.len() == 2
        && "cond"@.len() == 4 && "apply"@.len() == 5 && "map"@.len() == 3);
    assert("if"@[0] == 'i' && "+"@[0] == '+' && "map"@[0] == 'm');
}

/// An integer literal datum.
pub open spec fn int_datum(n: int) -> DV {
    leaf_dv(DataType::Integer, int_text(n), 0)
}

/// The application form `(+ a b)`.
pub open spec fn plus_form(a: DV, b: DV) -> DV {
    DV {
        kind: DataType::List,
        text: Seq::empty(),
        items: seq![leaf_dv(DataType::Variable, "+"@, 0), a, b],
        native: None,
        ql: 0,
        scope: None,
    }
}

/// For all machine integers whose sum fits, evaluating `(+ n1 n2)` in any
/// environment that binds `+` to its built-in gives exactly the integer
/// sum rendered as decimal text, and leaves the environment as it was.
pub proof fn law_integer_sum(env: EnvM, n1: i64, n2: i64, fuel: nat)
    requires
        lookup(env, "+"@) == Some(proc_dv("+"@, NativeOp::Add)),
        i64::MIN <= n1 as int + n2 as int <= i64::MAX,
        fuel >= 2,
    ensures
        spec_eval(env, plus_form(int_datum(n1 as int), int_datum(n2 as int)), fuel) == (
            env,
            int_datum(n1 as int + n2 as int),
        ),
{
    lemma_plus_not_special();
    lemma_int_text_val(n1 as int);
    lemma_int_text_val(n2 as int);
    let x = plus_form(int_datum(n1 as int), int_datum(n2 as int));
    let a1 = int_datum(n1 as int);
    let a2 = int_datum(n2 as int);
    assert(!is_invalid_dv(proc_dv("+"@, NativeOp::Add)));
    assert(spec_eval(env, x.items[0], (fuel - 1) as nat) == (
        env,
        proc_dv("+"@, NativeOp::Add),
    ));
    assert(spec_eval(env, a1, (fuel - 1) as nat) == (env, a1));
    assert(spec_eval(env, a2, (fuel - 1) as nat) == (env, a2));
    assert(!is_invalid_dv(a1) && !is_invalid_dv(a2));
    let walked = spec_eval_args(env, x, 1, Seq::empty(), fuel);
    assert(spec_eval_args(env, x, 3, seq![a1, a2], fuel) == (env, seq![a1, a2], true));
    assert(spec_eval_args(env, x, 2, seq![a1], fuel) == (env, seq![a1, a2], true)) by {
        assert(seq![a1].push(a2) =~= seq![a1, a2]);
    }
    assert(walked == (env, seq![a1, a2], true)) by {
        assert(Seq::<DV>::empty().push(a1) =~= seq![a1]);
    }
    let args = seq![a1, a2];
    assert(num_of(a1) == Some(Num::I(n1)));
    assert(num_of(a2) == Some(Num::I(n2)));
    let applied = spec_apply_native(NativeOp::Add, args);
    reveal_with_fuel(spec_arith_loop, 4);
    assert(combine_spec(Num::I(0), Num::I(n1), false, false) == ArithOut::Val(Num::I(n1)));
    assert(combine_spec(Num::I(n1), Num::I(n2), false, false) == ArithOut::Val(
        Num::I((n1 + n2) as i64),
    ));
    assert(spec_arith_loop(args, 2, Num::I((n1 + n2) as i64), false, false) == (
        num_data(Num::I((n1 + n2) as i64)),
        Seq::<char>::empty(),
    ));
    assert(applied == (num_data(Num::I((n1 + n2) as i64)), Seq::<char>::empty()));
    assert(env_out(env, Seq::<char>::empty()) =~= env) by {
        assert(env.out + Seq::<char>::empty() =~= env.out);
    }
    assert(spec_eval_proc_lambda(env, x, fuel) == (env, int_datum(n1 as int + n2 as int)));
}

/// Mixing a real operand into `(+ n r)` promotes the whole result to real
/// data: the rendered sum of the stored decimals.
pub proof fn law_real_operand_promotes(env: EnvM, n1: i64, r2: DV, d2: Dec, s: Dec, fuel: nat)
    requires
        lookup(env, "+"@) == Some(proc_dv("+"@, NativeOp::Add)),
        r2.kind == DataType::Real,
        r2.items.len() == 0,
        r2.native is None,
        r2.ql == 0,
        parse_real_spec(r2.text) == Some(d2),
        dec_ok(d2),
        dec_add_spec(dec_of_i64_spec(n1), d2) == Some(s),
        fuel >= 2,
    ensures
        spec_eval(env, plus_form(int_datum(n1 as int), r2), fuel) == (
            env,
            leaf_dv(DataType::Real, render_dec_spec(s), 0),
        ),
{
    lemma_plus_not_special();
    lemma_int_text_val(n1 as int);
    let x = plus_form(int_datum(n1 as int), r2);
    let a1 = int_datum(n1 as int);
    assert(!is_invalid_dv(proc_dv("+"@, NativeOp::Add)));
    assert(spec_eval(env, x.items[0], (fuel - 1) as nat) == (
        env,
        proc_dv("+"@, NativeOp::Add),
    ));
    assert(spec_eval(env, a1, (fuel - 1) as nat) == (env, a1));
    assert(spec_eval(env, r2, (fuel - 1) as nat) == (env, r2));
    assert(!is_invalid_dv(a1) && !is_invalid_dv(r2));
    assert(spec_eval_args(env, x, 3, seq![a1, r2], fuel) == (env, seq![a1, r2], true));
    assert(spec_eval_args(env, x, 2, seq![a1], fuel) == (env, seq![a1, r2], true)) by {
        assert(seq![a1].push(r2) =~= seq![a1, r2]);
    }
    assert(spec_eval_args(env, x, 1, Seq::empty(), fuel) == (env, seq![a1, r2], true)) by {
        assert(Seq::<DV>::empty().push(a1) =~= seq![a1]);
    }
    let args = seq![a1, r2];
    assert(num_of(a1) == Some(Num::I(n1)));
    assert(num_of(r2) == Some(Num::R(d2)));
    assert(combine_spec(Num::I(0), Num::I(n1), false, false) == ArithOut::Val(Num::I(n1)));
    assert(num_dec(Num::I(n1)) == dec_of_i64_spec(n1));
    assert(combine_spec(Num::I(n1), Num::R(d2), false, false) == ArithOut::Val(Num::R(s)));
    let applied = spec_apply_native(NativeOp::Add, args);
    reveal_with_fuel(spec_arith_loop, 4);
    assert(spec_arith_loop(args, 2, Num::R(s), false, false) == (
        num_data(Num::R(s)),
        Seq::<char>::empty(),
    ));
    assert(applied == (num_data(Num::R(s)), Seq::<char>::empty()));
    assert(env_out(env, Seq::<char>::empty()) =~= env) by {
        assert(env.out + Seq::<char>::empty() =~= env.out);
    }
    assert(spec_eval_proc_lambda(env, x, fuel) == (
        env,
        leaf_dv(DataType::Real, render_dec_spec(s), 0),
    ));
}

/// A run of decimal digits carries no identifier led by a digit.
proof fn lemma_ident_digit_in_digits(t: Seq<char>, i: int)
    requires
        forall|k: int| i <= k < t.len() ==> is_digit(#[trigger] t[k]),
    ensures
        len_ident_digit(t, i) == 0,
    decreases t.len() - i,
{
    if 0 <= i < t.len() && is_sd(t[i]) {
        lemma_ident_digit_in_digits(t, i + 1);
        assert(is_digit(t[i]));
        assert(!(is_schar(t[i]) || is_letter(t[i])));
    }
}

/// Reading then rendering an integer literal in canonical decimal form
/// gives the same text back: the text makes exactly one integer token,
/// the token reads as an integer datum with that text, and the datum
/// displays as that text.
pub proof fn law_integer_literal_round_trip(n: int)
    ensures
        spec_lex(int_text(n), 0) == seq![TV::IntTok(int_text(n))],
        spec_parse(seq![TV::IntTok(int_text(n))], 0, 0) == (
            0int,
            Some(leaf_dv(DataType::Integer, int_text(n), 0)),
            Seq::<char>::empty(),
        ),
        spec_render(leaf_dv(DataType::Integer, int_text(n), 0), 0) == int_text(n),
{
    let s = int_text(n);
    lemma_int_text_val(n);
    if n < 0 {
        lemma_nat_text_digits((-n) as nat);
    } else {
        lemma_nat_text_digits(n as nat);
    }
    let len = s.len() as int;
    assert(forall|k: int| 1 <= k < len ==> is_digit(#[trigger] s[k])) by {
        if n < 0 {
            assert(forall|k: int| 1 <= k < len ==> s[k] == #[trigger] nat_text(
                (-n) as nat,
            )[k - 1]);
        }
    }
    let start: int = if n < 0 {
        1
    } else {
        0
    };
    lemma_char_run(s, start, len, |c: char| is_digit(c));
    assert(len_int(s, 0) == len);
    assert(len_real(s, 0) == 0);
    assert(len_string(s, 0) == 0);
    if n < 0 {
        assert(forall|k: int| 0 <= k < len ==> is_sd(#[trigger] s[k]));
        lemma_char_run(s, 0, len, |c: char| is_sd(c));
        assert(len_ident(s, 0) == len);
    } else {
        assert(is_digit(s[0]));
        assert(!(is_schar(s[0]) || is_letter(s[0])));
        lemma_ident_digit_in_digits(s, 0);
        assert(len_ident(s, 0) == 0);
    }
    assert(char_run(s, 0, |c: char| is_skip_char(c)) == 0);
    assert(s[0] != '(' && s[0] != ')' && s[0] != '\u{27}');
    assert(s.subrange(0, len) =~= s);
    assert(spec_lex(s, len) =~= Seq::<TV>::empty());
    assert(spec_lex(s, 0) =~= seq![TV::IntTok(s)]);
}

/// Looking an identifier up that no frame binds reports it undefined,
/// returns the failure value, and changes no binding.
pub proof fn law_unbound_identifier(env: EnvM, x: DV, fuel: nat)
    requires
        x.kind == DataType::Variable,
        lookup(env, x.text) is None,
        fuel >= 1,
    ensures
        spec_eval(env, x, fuel).1 == invalid_dv(),
        spec_eval(env, x, fuel).0.frames == env.frames,
        spec_eval(env, x, fuel).0.out == env.out + diag(
            ErrKind::Undefined,
            x.text,
            Seq::empty(),
            Seq::empty(),
        ),
{
}

/// Calling a two-parameter lambda with one argument reports the arity
/// mismatch, returns the failure value, changes no binding, and writes
/// nothing else: the body never ran.
pub proof fn law_lambda_arity_mismatch(env: EnvM, x: DV, lam: DV, av: DV, fuel: nat)
    requires
        x.kind == DataType::List,
        x.items.len() == 2,
        !(x.items[0].kind == DataType::Variable && (x.items[0].text == "define"@ || x.items[0].text
            == "lambda"@ || x.items[0].text == "if"@ || x.items[0].text == "cond"@
            || x.items[0].text == "apply"@ || x.items[0].text == "map"@)),
        spec_eval(env, x.items[0], (fuel - 1) as nat) == (env, lam),
        lam.kind == DataType::Lambda,
        lam.items.len() >= 2,
        lam.items[1].items.len() == 2,
        spec_eval(env, x.items[1], (fuel - 1) as nat) == (env, av),
        !is_invalid_dv(av),
        !is_invalid_dv(lam),
        fuel >= 1,
    ensures
        spec_eval(env, x, fuel).1 == invalid_dv(),
        spec_eval(env, x, fuel).0.frames == env.frames,
        spec_eval(env, x, fuel).0.out == env.out + diag(
            ErrKind::ArityMismatch,
            x.items[0].text,
            int_text(2),
            int_text(1),
        ),
{
    let walked = spec_eval_args(env, x, 1, Seq::empty(), fuel);
    assert(spec_eval_args(env, x, 2, seq![av], fuel) == (env, seq![av], true));
    assert(walked == (env, seq![av], true)) by {
        assert(Seq::<DV>::empty().push(av) =~= seq![av]);
    }
    assert(spec_eval_proc_lambda(env, x, fuel).1 == invalid_dv());
}


/// Scoping is lexical: applying a parameterless lambda whose whole body is
/// one bare name gives the value that name has from the lambda's
/// *defining* frame outwards, wherever the call happens; the caller's
/// bindings and output stay as they were (one unreachable call frame is
/// added to the arena).
pub proof fn law_lambda_lexical_scope(
    env: EnvM,
    x: DV,
    lam: DV,
    name: Seq<char>,
    w: DV,
    h: int,
    fuel: nat,
)
    requires
        x.kind == DataType::List,
        x.items.len() == 1,
        !(x.items[0].kind == DataType::Variable && (x.items[0].text == "define"@ || x.items[0].text
            == "lambda"@ || x.items[0].text == "if"@ || x.items[0].text == "cond"@
            || x.items[0].text == "apply"@ || x.items[0].text == "map"@)),
        spec_eval(env, x.items[0], (fuel - 1) as nat) == (env, lam),
        lam.kind == DataType::Lambda,
        lam.items.len() == 3,
        lam.items[1].items.len() == 0,
        lam.items[2].kind == DataType::Variable,
        lam.items[2].text == name,
        lam.scope == Some(h),
        0 <= h < env.frames.len(),
        0 <= env.cur < env.frames.len(),
        lookup_from(env.frames, h, name) == Some(w),
        !is_invalid_dv(w),
        !is_invalid_dv(lam),
        fuel >= 2,
    ensures
        spec_eval(env, x, fuel).1 == w,
        spec_eval(env, x, fuel).0.cur == env.cur,
        spec_eval(env, x, fuel).0.out == env.out,
        forall|k: Seq<char>| lookup(spec_eval(env, x, fuel).0, k) == lookup(env, k),
{
    let walked = spec_eval_args(env, x, 1, Seq::empty(), fuel);
    assert(walked == (env, Seq::<DV>::empty(), true));
    let frame = FrameM {
        map: bind_map(lam.items[1].items, Seq::<DV>::empty()),
        parent: Some(h),
    };
    let child = EnvM {
        frames: env.frames.push(frame),
        cur: env.frames.len() as int,
        out: env.out,
    };
    assert(frame.map =~= Map::<Seq<char>, DV>::empty());
    assert(!child.frames[child.cur].map.contains_key(name));
    lemma_lookup_push(env.frames, frame, h, name);
    assert(lookup(child, name) == Some(w));
    assert(spec_eval(child, lam.items[2], (fuel - 1) as nat) == (child, w));
    assert(spec_body_iter(child, lam, 3, w, fuel) == (child, w));
    assert(spec_body_iter(child, lam, 2, invalid_dv(), fuel) == (child, w));
    assert(spec_eval_proc_lambda(env, x, fuel) == (
        EnvM { frames: child.frames, cur: env.cur, out: env.out },
        w,
    ));
    assert forall|k: Seq<char>| lookup(spec_eval(env, x, fuel).0, k) == lookup(env, k) by {
        lemma_lookup_push(env.frames, frame, env.cur, k);
    }
}

/// `map` over proper lists of unequal length reports a contract
/// violation and returns the failure value. (A first list with a single
/// member slips past the walk, which stops before the length check.)
pub proof fn law_map_length_mismatch(env: EnvM, x: DV, procv: DV, fuel: nat)
    requires
        x.kind == DataType::List,
        x.items.len() == 4,
        x.items[0].kind == DataType::Variable,
        x.items[0].text == "map"@,
        spec_eval(env, x.items[1], (fuel - 1) as nat) == (env, procv),
        procv.kind == DataType::Procedure,
        is_list_dv(x.items[2]),
        is_list_dv(x.items[3]),
        x.items[2].items.len() > 1,
        x.items[2].items.len() != x.items[3].items.len(),
        fuel >= 1,
    ensures
        spec_eval(env, x, fuel).1 == invalid_dv(),
        spec_eval(env, x, fuel).0.frames == env.frames,
{
    lemma_plus_not_special();
    let len0 = x.items[2].items.len() as int;
    let stepped = spec_eval_map(env, x, fuel);
    assert(spec_map_args(x, 0, 3, len0) is Err);
    assert(spec_map_args(x, 0, 2, len0) is Err);
    assert(spec_map_iter(env, x, 0, Seq::empty(), len0, fuel).1 == invalid_dv());
    assert(stepped.1 == invalid_dv());
}


/// A digit-led identifier match fits inside the text and ends on a symbol
/// or letter.
proof fn lemma_ident_digit_props(t: Seq<char>, i: int)
    requires
        0 <= i,
    ensures
        0 <= len_ident_digit(t, i) <= t.len() - i || len_ident_digit(t, i) == 0,
        len_ident_digit(t, i) > 0 ==> i + len_ident_digit(t, i) <= t.len() && (is_schar(
            t[i + len_ident_digit(t, i) - 1],
        ) || is_letter(t[i + len_ident_digit(t, i) - 1])),
    decreases t.len() - i,
{
    if 0 <= i < t.len() && is_sd(t[i]) {
        lemma_ident_digit_props(t, i + 1);
    }
}

/// Reading then rendering a real literal in canonical decimal form (one
/// with a fractional part) gives the same text back: the text makes
/// exactly one real token, the token reads as real data with that text,
/// and the datum displays as that text.
pub proof fn law_real_literal_round_trip(d: Dec)
    requires
        dec_ok(d),
        d.e >= 1,
    ensures
        spec_lex(render_dec_spec(d), 0) == seq![TV::RealTok(render_dec_spec(d))],
        spec_parse(seq![TV::RealTok(render_dec_spec(d))], 0, 0) == (
            0int,
            Some(leaf_dv(DataType::Real, render_dec_spec(d), 0)),
            Seq::<char>::empty(),
        ),
        spec_render(leaf_dv(DataType::Real, render_dec_spec(d), 0), 0) == render_dec_spec(d),
{
    lemma_render_dec_shape(d);
    lemma_parse_render_dec(d);
    let s = render_dec_spec(d);
    let len = s.len() as int;
    let sl: int = if d.neg {
        1
    } else {
        0
    };
    let dot: int = sl + nat_text((d.m as nat) / pow10(d.e as nat)).len();
    lemma_char_run(s, sl, dot, |c: char| is_digit(c));
    lemma_char_run(s, dot + 1, len, |c: char| is_digit(c));
    if d.neg {
        assert(s[0] == '-');
    } else {
        assert(is_digit(s[0]));
        assert(s[0] != '-' && s[0] != '+');
    }
    assert(len_int(s, 0) == dot);
    assert(len_real(s, 0) == len);
    assert(len_string(s, 0) == 0);
    assert(char_run(s, 0, |c: char| is_skip_char(c)) == 0);
    assert(s[0] != '(' && s[0] != ')' && s[0] != '\u{27}');
    if d.neg {
        assert(is_schar(s[0]));
        assert(forall|k: int| 0 <= k < len ==> is_sd(#[trigger] s[k]));
        lemma_char_run(s, 0, len, |c: char| is_sd(c));
        assert(len_ident(s, 0) == len);
    } else {
        lemma_ident_digit_props(s, 0);
        let b = len_ident_digit(s, 0);
        assert(is_digit(s[len - 1]));
        if b == len {
            assert(is_schar(s[len - 1]) || is_letter(s[len - 1]));
            assert(false);
        }
        assert(len_ident(s, 0) == b || len_ident(s, 0) == 0);
        assert(len_ident(s, 0) < len);
    }
    assert(s.subrange(0, len) =~= s);
    assert(spec_lex(s, len) =~= Seq::<TV>::empty());
    assert(spec_lex(s, 0) =~= seq![TV::RealTok(s)]);
    assert(canon_real_spec(s) == s);
}

} // verus!
