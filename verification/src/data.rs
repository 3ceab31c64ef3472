//! The runtime datum of the interpreter: a tagged tree carrying text,
//! child values, an optional built-in operation, and a quotation depth,
//! together with its ghost mirror and the textual rendering rules.

use vstd::prelude::*;
use crate::numeric::canon_real_spec;
use crate::numeric::canon_real;

verus! {

#[derive(Clone, Copy, PartialEq, Eq, Structural, Debug)]
pub enum DataType {
    Invalid,
    Integer,
    Real,
    Variable,
    List,
    Procedure,
    Symbol,
    Lambda,
}

/// A handle naming one built-in procedure of the root environment.
#[derive(Clone, Copy, PartialEq, Eq, Structural, Debug)]
pub enum NativeOp {
    Add,
    Subtract,
    Multiply,
    Divide,
    ListOf,
    IsNull,
    IsPair,
    IsList,
    IsString,
    Cons,
    Car,
    Cdr,
    IsNumber,
    IsInteger,
    IsReal,
    Equals,
    Less,
    LessOrEqual,
    Greater,
    GreaterOrEqual,
    And,
    Or,
    Remainder,
    Quotient,
    Expt,
    Max,
    Print,
}

#[derive(Debug)]
pub struct Data {
    pub list: Vec<Data>,
    pub string: String,
    pub native: Option<NativeOp>,
    pub data_type: DataType,
    pub quote_level: u16,
    pub scope: Option<usize>,
}

/// The ghost shape of a datum: what the contracts speak about. A lambda
/// value's `scope` is the handle of the frame it was made in; its body's
/// free names resolve from there.
pub struct DV {
    pub kind: DataType,
    pub text: Seq<char>,
    pub items: Seq<DV>,
    pub native: Option<NativeOp>,
    pub ql: u16,
    pub scope: Option<int>,
}

/// The ghost mirror of a datum.
pub open spec fn dv(d: Data) -> DV
    decreases d,
{
    DV {
        kind: d.data_type,
        text: d.string@,
        items: dv_seq(d.list@),
        native: d.native,
        ql: d.quote_level,
        scope: scope_of(d.scope),
    }
}

/// The ghost shape of a frame handle.
pub open spec fn scope_of(s: Option<usize>) -> Option<int> {
    match s {
        Some(h) => Some(h as int),
        None => None,
    }
}

/// The ghost mirrors of a run of child data.
pub open spec fn dv_seq(s: Seq<Data>) -> Seq<DV>
    decreases s,
{
    if s.len() == 0 {
        Seq::empty()
    } else {
        seq![dv(s[0])] + dv_seq(s.skip(1))
    }
}

/// Indexing the mirrored children mirrors indexing.
pub proof fn lemma_dv_seq(s: Seq<Data>)
    ensures
        dv_seq(s).len() == s.len(),
        forall|i: int| 0 <= i < s.len() ==> dv_seq(s)[i] == dv(#[trigger] s[i]),
    decreases s.len(),
{
    if s.len() > 0 {
        lemma_dv_seq(s.skip(1));
        assert(forall|i: int| 1 <= i < s.len() ==> s.skip(1)[i - 1] == #[trigger] s[i]);
    }
}

impl View for Data {
    type V = DV;

    open spec fn view(&self) -> DV {
        dv(*self)
    }
}

/// Structural likeness: equality of everything except the operation handle.
pub open spec fn dv_sim(a: DV, b: DV) -> bool
    decreases a,
{
    &&& a.kind == b.kind
    &&& a.text == b.text
    &&& a.ql == b.ql
    &&& a.items.len() == b.items.len()
    &&& forall|i: int| 0 <= i < a.items.len() ==> dv_sim(#[trigger] a.items[i], b.items[i])
}

/// A childless datum.
pub open spec fn leaf_dv(kind: DataType, text: Seq<char>, ql: u16) -> DV {
    DV { kind, text, items: Seq::empty(), native: None, ql, scope: None }
}

/// The one value standing for the empty list.
pub open spec fn null_dv() -> DV {
    leaf_dv(DataType::Symbol, Seq::empty(), 1)
}

/// The failure value every error path returns.
pub open spec fn invalid_dv() -> DV {
    leaf_dv(DataType::Invalid, Seq::empty(), 0)
}

pub open spec fn true_dv() -> DV {
    leaf_dv(DataType::Symbol, "#t"@, 0)
}

pub open spec fn false_dv() -> DV {
    leaf_dv(DataType::Symbol, "#f"@, 0)
}

pub open spec fn void_dv() -> DV {
    leaf_dv(DataType::Invalid, "#<void>"@, 0)
}

pub open spec fn proc_dv(name: Seq<char>, op: NativeOp) -> DV {
    DV {
        kind: DataType::Procedure,
        text: name,
        items: Seq::empty(),
        native: Some(op),
        ql: 0,
        scope: None,
    }
}

/// Whether a datum is the empty-list value (its operation handle aside).
pub open spec fn is_null_dv(x: DV) -> bool {
    &&& x.kind == DataType::Symbol
    &&& x.ql == 1
    &&& x.text.len() == 0
    &&& x.items.len() == 0
}

/// Whether a datum is the false literal.
pub open spec fn is_false_dv(x: DV) -> bool {
    &&& x.kind == DataType::Symbol
    &&& x.ql == 0
    &&& x.text == "#f"@
    &&& x.items.len() == 0
}

/// Whether a datum is the failure value.
pub open spec fn is_invalid_dv(x: DV) -> bool {
    &&& x.kind == DataType::Invalid
    &&& x.ql == 0
    &&& x.text.len() == 0
    &&& x.items.len() == 0
}

impl Data {
    pub fn new() -> (res: Data)
        ensures
            res@ == invalid_dv(),
    {
        let res = Data {
            list: Vec::new(),
            string: String::new(),
            native: None,
            data_type: DataType::Invalid,
            quote_level: 0,
            scope: None,
        };
        proof {
            assert(res@ =~~= invalid_dv());
        }
        res
    }

    pub fn from_string(dtype: DataType, string: String) -> (res: Data)
        ensures
            res@ == leaf_dv(dtype, string@, 0),
    {
        let res = Data {
            list: Vec::new(),
            string,
            native: None,
            data_type: dtype,
            quote_level: 0,
            scope: None,
        };
        proof {
            assert(res@ =~~= leaf_dv(dtype, res.string@, 0));
        }
        res
    }

    pub fn from_string_quoted(dtype: DataType, string: String, quote_level: u16) -> (res: Data)
        ensures
            res@ == leaf_dv(dtype, string@, quote_level),
    {
        let res = Data {
            list: Vec::new(),
            string,
            native: None,
            data_type: dtype,
            quote_level,
            scope: None,
        };
        proof {
            assert(res@ =~~= leaf_dv(dtype, res.string@, quote_level));
        }
        res
    }

    pub fn new_list() -> (res: Data)
        ensures
            res@ == leaf_dv(DataType::List, Seq::empty(), 0),
    {
        let res = Data {
            list: Vec::new(),
            string: String::new(),
            native: None,
            data_type: DataType::List,
            quote_level: 0,
            scope: None,
        };
        proof {
            assert(res@ =~~= leaf_dv(DataType::List, Seq::empty(), 0));
        }
        res
    }

    pub fn from_list(list: Vec<Data>) -> (res: Data)
        ensures
            res@ == (DV {
                kind: DataType::List,
                text: Seq::empty(),
                items: dv_seq(list@),
                native: None,
                ql: 0,
                scope: None,
            }),
    {
        let res = Data {
            list,
            string: String::new(),
            native: None,
            data_type: DataType::List,
            quote_level: 0,
            scope: None,
        };
        proof {
            assert(res@.text =~= Seq::<char>::empty());
        }
        res
    }

    pub fn new_proc(proc_name: &str, op: NativeOp) -> (res: Data)
        ensures
            res@ == proc_dv(proc_name@, op),
    {
        let res = Data {
            list: Vec::new(),
            string: String::from_str(proc_name),
            native: Some(op),
            data_type: DataType::Procedure,
            quote_level: 0,
            scope: None,
        };
        proof {
            assert(res@ =~~= proc_dv(proc_name@, op));
        }
        res
    }
}

/// The empty-list value.
pub fn null_sym() -> (res: Data)
    ensures
        res@ == null_dv(),
{
    let res = Data {
        list: Vec::new(),
        string: String::new(),
        native: None,
        data_type: DataType::Symbol,
        quote_level: 1,
        scope: None,
    };
    proof {
        assert(res@ =~~= null_dv());
    }
    res
}

/// The failure value.
pub fn invalid_data() -> (res: Data)
    ensures
        res@ == invalid_dv(),
{
    Data::new()
}

pub fn new_true_sym() -> (res: Data)
    ensures
        res@ == true_dv(),
{
    Data::from_string(DataType::Symbol, String::from_str("#t"))
}

pub fn new_false_sym() -> (res: Data)
    ensures
        res@ == false_dv(),
{
    Data::from_string(DataType::Symbol, String::from_str("#f"))
}

pub fn new_void_data() -> (res: Data)
    ensures
        res@ == void_dv(),
{
    Data::from_string(DataType::Invalid, String::from_str("#<void>"))
}

pub fn is_null_sym(data: &Data) -> (r: bool)
    ensures
        r == is_null_dv(data@),
{
    data.data_type == DataType::Symbol && data.quote_level == 1
        && data.string.as_str().unicode_len() == 0 && data.list.len() == 0
}

pub fn is_false_sym(data: &Data) -> (r: bool)
    ensures
        r == is_false_dv(data@),
{
    data.data_type == DataType::Symbol && data.quote_level == 0 && data.string
        == String::from_str("#f") && data.list.len() == 0
}

pub fn is_invalid_data(data: &Data) -> (r: bool)
    ensures
        r == is_invalid_dv(data@),
{
    data.data_type == DataType::Invalid && data.quote_level == 0
        && data.string.as_str().unicode_len() == 0 && data.list.len() == 0
}

/// A structurally equal copy (mirrors agree exactly).
pub fn clone_data(d: &Data) -> (res: Data)
    ensures
        res@ == d@,
    decreases *d,
{
    let mut items: Vec<Data> = Vec::new();
    let n = d.list.len();
    let mut i: usize = 0;
    while i < n
        invariant
            i <= n,
            n == d.list@.len(),
            items@.len() == i,
            forall|j: int| 0 <= j < i ==> (#[trigger] items@[j])@ == d.list@[j]@,
        decreases n - i,
    {
        items.push(clone_data(&d.list[i]));
        i += 1;
    }
    let res = Data {
        list: items,
        string: d.string.clone(),
        native: d.native,
        data_type: d.data_type,
        quote_level: d.quote_level,
        scope: d.scope,
    };
    proof {
        lemma_dv_seq(res.list@);
        lemma_dv_seq(d.list@);
        assert forall|j: int| 0 <= j < res.list@.len() implies #[trigger] dv_seq(
            res.list@,
        )[j] == dv_seq(d.list@)[j] by {
            assert(res.list@[j]@ == d.list@[j]@);
            assert(dv_seq(res.list@)[j] == dv(res.list@[j]));
            assert(dv_seq(d.list@)[j] == dv(d.list@[j]));
        }
        assert(dv_seq(res.list@) =~= dv_seq(d.list@));
        assert(res@ =~~= d@);
    }
    res
}

impl Clone for Data {
    /// A structurally equal copy.
    fn clone(&self) -> (res: Data)
        ensures
            res@ == self@,
    {
        clone_data(self)
    }
}

/// Likeness as the runtime compares it: everything but the operation
/// handle.
pub fn data_eq(a: &Data, b: &Data) -> (r: bool)
    ensures
        r == dv_sim(a@, b@),
    decreases *a,
{
    proof {
        lemma_dv_seq(a.list@);
        lemma_dv_seq(b.list@);
    }
    if !(a.data_type == b.data_type && a.string == b.string && a.quote_level
        == b.quote_level) {
        return false;
    }
    if a.list.len() != b.list.len() {
        return false;
    }
    let n = a.list.len();
    let mut i: usize = 0;
    while i < n
        invariant
            n == a.list@.len() == b.list@.len(),
            i <= n,
            a.data_type == b.data_type,
            a.string@ == b.string@,
            a.quote_level == b.quote_level,
            forall|j: int| 0 <= j < i ==> dv_sim(dv(#[trigger] a.list@[j]), dv(b.list@[j])),
        decreases n - i,
    {
        if !data_eq(&a.list[i], &b.list[i]) {
            proof {
                lemma_dv_seq(a.list@);
                lemma_dv_seq(b.list@);
                assert(a@.items[i as int] == dv(a.list@[i as int]));
                assert(b@.items[i as int] == dv(b.list@[i as int]));
                assert(!dv_sim(a@, b@));
            }
            return false;
        }
        i += 1;
    }
    proof {
        lemma_dv_seq(a.list@);
        lemma_dv_seq(b.list@);
        assert(forall|j: int| 0 <= j < a@.items.len() ==> dv_sim(
            #[trigger] a@.items[j],
            b@.items[j],
        )) by {
            assert(forall|j: int| 0 <= j < a.list@.len() ==> dv_sim(
                dv(#[trigger] a.list@[j]),
                dv(b.list@[j]),
            ));
            assert(forall|j: int| 0 <= j < a.list@.len() ==> #[trigger] a@.items[j] == dv(
                a.list@[j],
            ) && b@.items[j] == dv(b.list@[j]));
        }
    }
    true
}

impl PartialEq for Data {
    fn eq(&self, other: &Data) -> (r: bool)
        ensures
            r == dv_sim(self@, other@),
    {
        data_eq(self, other)
    }
}

impl vstd::std_specs::cmp::PartialEqSpecImpl for Data {
    open spec fn obeys_eq_spec() -> bool {
        true
    }

    open spec fn eq_spec(&self, other: &Data) -> bool {
        dv_sim(self@, other@)
    }
}


/// A run of quotation marks.
pub open spec fn quote_marks(n: int) -> Seq<char>
    decreases n,
{
    if n <= 0 {
        Seq::empty()
    } else {
        quote_marks(n - 1) + "'"@
    }
}

/// One step past a quotation depth, stopping at the largest depth.
pub open spec fn ql_next(q: u16) -> u16 {
    if q == 65535 {
        q
    } else {
        (q + 1) as u16
    }
}

/// The inner elements of a rendered list: every element after the first
/// and before the last, each preceded by one space.
pub open spec fn spec_render_mids(x: DV, q: u16, i: int) -> Seq<char>
    decreases x, 0int, x.items.len() - i,
{
    if i < 0 || i + 1 >= x.items.len() || i >= x.items.len() {
        Seq::empty()
    } else {
        " "@ + spec_render(x.items[i], q) + spec_render_mids(x, q, i + 1)
    }
}

/// The text a datum displays as, seen from an enclosing quotation depth:
/// quote marks owed, then the shape itself; a proper list hides its
/// empty-list terminator and an improper one shows its tail after a dot;
/// a real number shows its canonical decimal text.
pub open spec fn spec_render(x: DV, ql: u16) -> Seq<char>
    decreases x, 1int, 0int,
{
    match x.kind {
        DataType::Lambda => if x.text.len() == 0 {
            "#<lambda>"@
        } else {
            "#<procedure:"@ + x.text + ">"@
        },
        DataType::Procedure => "#<procedure:"@ + x.text + ">"@,
        DataType::List => {
            let pre: Seq<char> = if ql == 0 {
                "'"@
            } else {
                Seq::empty()
            };
            let marks: Seq<char> = if ql < x.ql {
                quote_marks(x.ql - ql)
            } else {
                Seq::empty()
            };
            let q2 = ql_next(ql);
            let inner: Seq<char> = if x.items.len() == 0 {
                Seq::empty()
            } else {
                spec_render(x.items[0], q2) + spec_render_mids(x, q2, 1) + (if x.items.len()
                    > 1 && !is_null_dv(x.items.last()) {
                    " . "@ + spec_render(x.items.last(), q2)
                } else {
                    Seq::empty()
                })
            };
            pre + marks + "("@ + inner + ")"@
        },
        DataType::Symbol => {
            let marks: Seq<char> = if ql < x.ql {
                quote_marks(x.ql - ql)
            } else {
                Seq::empty()
            };
            if x.text.len() > 0 {
                marks + x.text
            } else {
                let inner: Seq<char> = if x.items.len() == 0 {
                    Seq::empty()
                } else {
                    spec_render(x.items[0], x.ql) + spec_render_mids(x, x.ql, 1)
                };
                marks + "("@ + inner + ")"@
            }
        },
        DataType::Integer => {
            let marks: Seq<char> = if !(ql == 0 && x.ql == 1) && ql < x.ql {
                quote_marks(x.ql - ql)
            } else {
                Seq::empty()
            };
            marks + x.text
        },
        DataType::Real => {
            let marks: Seq<char> = if !(ql == 0 && x.ql == 1) && ql < x.ql {
                quote_marks(x.ql - ql)
            } else {
                Seq::empty()
            };
            marks + canon_real_spec(x.text)
        },
        DataType::Invalid => Seq::empty(),
        DataType::Variable => x.text,
    }
}

fn quote_marks_run(n: u16) -> (res: String)
    ensures
        res@ == quote_marks(n as int),
    decreases n,
{
    if n == 0 {
        String::new()
    } else {
        let mut s = quote_marks_run(n - 1);
        s.append("'");
        s
    }
}

fn render_mids(d: &Data, q: u16, i: usize) -> (res: String)
    ensures
        res@ == spec_render_mids(d@, q, i as int),
    decreases *d, 0int, d.list@.len() - i,
{
    proof {
        lemma_dv_seq(d.list@);
    }
    let n = d.list.len();
    if i >= n || i + 1 >= n {
        String::new()
    } else {
        let mut s = String::from_str(" ");
        let t = d.list[i].render(q);
        s.append(t.as_str());
        let rest = render_mids(d, q, i + 1);
        s.append(rest.as_str());
        s
    }
}

impl Data {
    /// The display text of this datum at an enclosing quotation depth.
    #[verifier::rlimit(60)]
    pub fn render(&self, quote_level: u16) -> (res: String)
        ensures
            res@ == spec_render(self@, quote_level),
        decreases *self, 1int, 0int,
    {
        proof {
            lemma_dv_seq(self.list@);
        }
        match self.data_type {
            DataType::Lambda => {
                if self.string.as_str().unicode_len() == 0 {
                    String::from_str("#<lambda>")
                } else {
                    let mut s = String::from_str("#<procedure:");
                    s.append(self.string.as_str());
                    s.append(">");
                    s
                }
            },
            DataType::Procedure => {
                let mut s = String::from_str("#<procedure:");
                s.append(self.string.as_str());
                s.append(">");
                s
            },
            DataType::List => {
                let mut s = if quote_level == 0 {
                    String::from_str("'")
                } else {
                    String::new()
                };
                if quote_level < self.quote_level {
                    let marks = quote_marks_run(self.quote_level - quote_level);
                    s.append(marks.as_str());
                }
                s.append("(");
                let q2: u16 = if quote_level == 65535 {
                    quote_level
                } else {
                    quote_level + 1
                };
                let n = self.list.len();
                if n > 0 {
                    let first = self.list[0].render(q2);
                    s.append(first.as_str());
                    let mids = render_mids(self, q2, 1);
                    s.append(mids.as_str());
                    if n > 1 && !is_null_sym(&self.list[n - 1]) {
                        s.append(" . ");
                        let lastt = self.list[n - 1].render(q2);
                        s.append(lastt.as_str());
                    }
                }
                s.append(")");
                proof {
                    if self.list@.len() > 0 {
                        assert(self@.items.last() == dv(self.list@[self.list@.len() - 1]));
                    }
                }
                s
            },
            DataType::Symbol => {
                let mut s = if quote_level < self.quote_level {
                    quote_marks_run(self.quote_level - quote_level)
                } else {
                    String::new()
                };
                if self.string.as_str().unicode_len() > 0 {
                    s.append(self.string.as_str());
                    s
                } else {
                    s.append("(");
                    let n = self.list.len();
                    if n > 0 {
                        let first = self.list[0].render(self.quote_level);
                        s.append(first.as_str());
                        let mids = render_mids(self, self.quote_level, 1);
                        s.append(mids.as_str());
                    }
                    s.append(")");
                    s
                }
            },
            DataType::Integer => {
                let mut s = if !(quote_level == 0 && self.quote_level == 1) && quote_level
                    < self.quote_level {
                    quote_marks_run(self.quote_level - quote_level)
                } else {
                    String::new()
                };
                s.append(self.string.as_str());
                s
            },
            DataType::Real => {
                let mut s = if !(quote_level == 0 && self.quote_level == 1) && quote_level
                    < self.quote_level {
                    quote_marks_run(self.quote_level - quote_level)
                } else {
                    String::new()
                };
                let canon = canon_real(self.string.as_str());
                s.append(canon.as_str());
                s
            },
            DataType::Invalid => String::new(),
            DataType::Variable => {
                let mut s = String::new();
                s.append(self.string.as_str());
                s
            },
        }
    }
}

} // verus!
