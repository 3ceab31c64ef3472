//! The environment and the evaluator: an arena of binding frames, each
//! with a handle to its parent, searched from the current frame outwards;
//! the special forms; and procedure application, which runs a lambda's
//! body in a fresh frame over the lambda's defining frame (lexical
//! scoping). Every diagnostic and every `display` call lands in the
//! environment's output text instead of a stream; the driver drains it.

use vstd::prelude::*;
use crate::data::Data;
use crate::data::DataType;
use crate::data::NativeOp;
use crate::data::DV;
use crate::data::dv;
use crate::data::dv_seq;
use crate::data::scope_of;
use crate::data::lemma_dv_seq;
use crate::data::leaf_dv;
use crate::data::null_dv;
use crate::data::invalid_dv;
use crate::data::void_dv;
use crate::data::true_dv;
use crate::data::false_dv;
use crate::data::proc_dv;
use crate::data::is_null_dv;
use crate::data::is_false_dv;
use crate::data::is_invalid_dv;
use crate::data::null_sym;
use crate::data::invalid_data;
use crate::data::new_true_sym;
use crate::data::new_false_sym;
use crate::data::new_void_data;
use crate::data::is_null_sym;
use crate::data::is_false_sym;
use crate::data::is_invalid_data;
use crate::data::spec_render;
use crate::builtins::ErrKind;
use crate::builtins::diag;
use crate::builtins::error_text;
use crate::builtins::is_list_dv;
use crate::builtins::is_list_data;
use crate::builtins::spec_apply_native;
use crate::builtins::apply_native;
use crate::digits::int_text;
use crate::digits::usize_string;

verus! {

/// One scope in the arena: its bindings, in insertion order, each name
/// once, and the handle of the scope it was made in (the root has none).
struct Frame {
    binds: Vec<(String, Data)>,
    parent: Option<usize>,
}

/// A frame as mathematics: its binding map and its parent handle.
pub struct FrameM {
    pub map: Map<Seq<char>, DV>,
    pub parent: Option<int>,
}

/// The environment as mathematics: the arena of frames, the handle of the
/// frame evaluation currently works in, and the text written so far.
/// Frames are never removed; one that no handle reaches any more is
/// simply unreachable (value copying is the only reclamation).
pub struct EnvM {
    pub frames: Seq<FrameM>,
    pub cur: int,
    pub out: Seq<char>,
}

/// The bindings a frame holds; a later binding for a name replaces an
/// earlier one.
pub open spec fn frame_map(s: Seq<(String, Data)>) -> Map<Seq<char>, DV>
    decreases s.len(),
{
    if s.len() == 0 {
        Map::empty()
    } else {
        frame_map(s.drop_last()).insert(s.last().0@, dv(s.last().1))
    }
}

/// Every name bound at most once.
pub open spec fn binds_wf(s: Seq<(String, Data)>) -> bool {
    forall|i: int, j: int| 0 <= i < j < s.len() ==> (#[trigger] s[i]).0@ != (#[trigger] s[j]).0@
}

/// Looking a name up from frame `i` walks the parent handles outwards;
/// handles always point at earlier frames, so the walk ends.
pub open spec fn lookup_from(frames: Seq<FrameM>, i: int, k: Seq<char>) -> Option<DV>
    decreases i,
{
    if !(0 <= i < frames.len()) {
        None
    } else if frames[i].map.contains_key(k) {
        Some(frames[i].map[k])
    } else {
        match frames[i].parent {
            Some(p) => if 0 <= p < i {
                lookup_from(frames, p, k)
            } else {
                None
            },
            None => None,
        }
    }
}

/// Looking a name up from the current frame.
pub open spec fn lookup(env: EnvM, k: Seq<char>) -> Option<DV> {
    lookup_from(env.frames, env.cur, k)
}

/// The environment with a binding added to its current frame.
pub open spec fn env_insert(env: EnvM, k: Seq<char>, v: DV) -> EnvM
    recommends
        0 <= env.cur < env.frames.len(),
{
    EnvM {
        frames: env.frames.update(
            env.cur,
            FrameM {
                map: env.frames[env.cur].map.insert(k, v),
                parent: env.frames[env.cur].parent,
            },
        ),
        cur: env.cur,
        out: env.out,
    }
}

/// The environment with text appended to its output.
pub open spec fn env_out(env: EnvM, t: Seq<char>) -> EnvM {
    EnvM { frames: env.frames, cur: env.cur, out: env.out + t }
}

/// The parameter names bound to the argument values, in order.
pub open spec fn bind_map(ps: Seq<DV>, vs: Seq<DV>) -> Map<Seq<char>, DV>
    decreases ps.len(),
{
    if ps.len() == 0 || vs.len() == 0 {
        Map::empty()
    } else {
        bind_map(ps.drop_last(), vs.drop_last()).insert(ps.last().text, vs.last())
    }
}

/// A binding added at a frame other frames cannot see does not change what
/// lookups from those frames find.
pub proof fn lemma_lookup_push(frames: Seq<FrameM>, f: FrameM, i: int, k: Seq<char>)
    requires
        0 <= i < frames.len(),
    ensures
        lookup_from(frames.push(f), i, k) == lookup_from(frames, i, k),
    decreases i,
{
    assert(frames.push(f)[i] == frames[i]);
    match frames[i].parent {
        Some(p) => {
            if 0 <= p < i {
                lemma_lookup_push(frames, f, p, k);
            }
        },
        None => {},
    }
}

/// A found binding sits in the map under its name.
proof fn lemma_frame_map_found(s: Seq<(String, Data)>, k: Seq<char>, i: int)
    requires
        binds_wf(s),
        0 <= i < s.len(),
        s[i].0@ == k,
    ensures
        frame_map(s).contains_key(k),
        frame_map(s)[k] == dv(s[i].1),
    decreases s.len(),
{
    if i == s.len() - 1 {
    } else {
        assert(s.drop_last()[i] == s[i]);
        lemma_frame_map_found(s.drop_last(), k, i);
        assert(s.last().0@ != k);
    }
}

/// A name bound nowhere is not in the map.
proof fn lemma_frame_map_absent(s: Seq<(String, Data)>, k: Seq<char>)
    requires
        forall|i: int| 0 <= i < s.len() ==> (#[trigger] s[i]).0@ != k,
    ensures
        !frame_map(s).contains_key(k),
    decreases s.len(),
{
    if s.len() > 0 {
        assert(forall|i: int|
            0 <= i < s.len() - 1 ==> (#[trigger] s.drop_last()[i]).0@ != k);
        lemma_frame_map_absent(s.drop_last(), k);
    }
}

/// Replacing a binding in place means inserting under its name.
proof fn lemma_frame_map_update(s: Seq<(String, Data)>, i: int, p: (String, Data))
    requires
        binds_wf(s),
        0 <= i < s.len(),
        s[i].0@ == p.0@,
    ensures
        frame_map(s.update(i, p)) == frame_map(s).insert(p.0@, dv(p.1)),
    decreases s.len(),
{
    let s2 = s.update(i, p);
    if i == s.len() - 1 {
        assert(s2.drop_last() =~= s.drop_last());
        assert(s2.last() == p);
        assert(frame_map(s2) == frame_map(s.drop_last()).insert(p.0@, dv(p.1)));
        assert(frame_map(s).insert(p.0@, dv(p.1)) =~= frame_map(s.drop_last()).insert(
            p.0@,
            dv(p.1),
        ));
    } else {
        assert(s2.drop_last() =~= s.drop_last().update(i, p));
        assert(s.drop_last()[i] == s[i]);
        lemma_frame_map_update(s.drop_last(), i, p);
        assert(s2.last() == s.last());
        assert(s.last().0@ != p.0@);
        assert(frame_map(s2) == frame_map(s.drop_last()).insert(p.0@, dv(p.1)).insert(
            s.last().0@,
            dv(s.last().1),
        ));
        assert(frame_map(s.drop_last()).insert(p.0@, dv(p.1)).insert(
            s.last().0@,
            dv(s.last().1),
        ) =~= frame_map(s.drop_last()).insert(s.last().0@, dv(s.last().1)).insert(
            p.0@,
            dv(p.1),
        ));
    }
}

impl Frame {
    spec fn fm(&self) -> FrameM {
        FrameM { map: frame_map(self.binds@), parent: scope_of(self.parent) }
    }

    spec fn fwf(&self) -> bool {
        binds_wf(self.binds@)
    }

    fn new(parent: Option<usize>) -> (res: Frame)
        ensures
            res.fm() == (FrameM { map: Map::<Seq<char>, DV>::empty(), parent: scope_of(parent) }),
            res.fwf(),
    {
        let res = Frame { binds: Vec::new(), parent };
        proof {
            assert(res.fm().map =~= Map::<Seq<char>, DV>::empty());
        }
        res
    }

    fn get<'a>(&'a self, name: &str) -> (r: Option<&'a Data>)
        requires
            self.fwf(),
        ensures
            match r {
                Some(d) => self.fm().map.contains_key(name@) && self.fm().map[name@] == d@,
                None => !self.fm().map.contains_key(name@),
            },
    {
        let n = self.binds.len();
        let mut i: usize = 0;
        while i < n
            invariant
                i <= n,
                n == self.binds@.len(),
                self.fwf(),
                forall|j: int| 0 <= j < i ==> (#[trigger] self.binds@[j]).0@ != name@,
            decreases n - i,
        {
            let hit = self.binds[i].0 == String::from_str(name);
            if hit {
                proof {
                    lemma_frame_map_found(self.binds@, name@, i as int);
                }
                return Some(&self.binds[i].1);
            }
            i += 1;
        }
        proof {
            lemma_frame_map_absent(self.binds@, name@);
        }
        None
    }

    fn put(&mut self, name: String, value: Data)
        requires
            old(self).fwf(),
        ensures
            final(self).fwf(),
            final(self).fm().map == old(self).fm().map.insert(name@, dv(value)),
            final(self).fm().parent == old(self).fm().parent,
    {
        let n = self.binds.len();
        let mut i: usize = 0;
        while i < n
            invariant
                i <= n,
                n == self.binds@.len(),
                self.fwf(),
                *self == *old(self),
                forall|j: int| 0 <= j < i ==> (#[trigger] self.binds@[j]).0@ != name@,
            decreases n - i,
        {
            let hit = self.binds[i].0 == name;
            if hit {
                let ghost pre = self.binds@;
                proof {
                    lemma_frame_map_update(pre, i as int, (name, value));
                }
                self.binds.set(i, (name, value));
                proof {
                    assert(self.binds@ == pre.update(i as int, self.binds@[i as int]));
                    assert(forall|a: int, b: int|
                        0 <= a < b < self.binds@.len() ==> (#[trigger] self.binds@[a]).0@ != (
                        #[trigger] self.binds@[b]).0@) by {
                        assert(forall|a: int|
                            0 <= a < self.binds@.len() && a != i ==> (
                            #[trigger] self.binds@[a]).0@ == pre[a].0@);
                    }
                }
                return ;
            }
            i += 1;
        }
        let ghost pre = self.binds@;
        self.binds.push((name, value));
        proof {
            assert(self.binds@.drop_last() =~= pre);
            lemma_frame_map_absent(pre, name@);
            assert(final(self).fm().map =~= old(self).fm().map.insert(name@, dv(value)));
            assert(forall|a: int, b: int|
                0 <= a < b < self.binds@.len() ==> (#[trigger] self.binds@[a]).0@ != (
                #[trigger] self.binds@[b]).0@) by {
                assert(forall|a: int|
                    0 <= a < pre.len() ==> (#[trigger] self.binds@[a]).0@ == pre[a].0@);
                assert(self.binds@[pre.len() as int].0@ == name@);
            }
        }
    }

    fn duplicate(&self) -> (res: Frame)
        ensures
            res.fm() == self.fm(),
            res.fwf() == self.fwf(),
    {
        let n = self.binds.len();
        let mut binds: Vec<(String, Data)> = Vec::new();
        let mut i: usize = 0;
        while i < n
            invariant
                i <= n,
                n == self.binds@.len(),
                binds@.len() == i,
                forall|j: int| 0 <= j < i ==> (#[trigger] binds@[j]).0@ == self.binds@[j].0@
                    && binds@[j].1@ == self.binds@[j].1@,
            decreases n - i,
        {
            let name = self.binds[i].0.clone();
            let value = self.binds[i].1.clone();
            binds.push((name, value));
            i += 1;
        }
        let res = Frame { binds, parent: self.parent };
        proof {
            lemma_frame_map_congruent(res.binds@, self.binds@);
        }
        res
    }
}

/// Binding runs that agree name-for-name and value-for-value map alike.
proof fn lemma_frame_map_congruent(a: Seq<(String, Data)>, b: Seq<(String, Data)>)
    requires
        a.len() == b.len(),
        forall|j: int| 0 <= j < a.len() ==> (#[trigger] a[j]).0@ == b[j].0@ && a[j].1@
            == b[j].1@,
    ensures
        frame_map(a) == frame_map(b),
        binds_wf(a) == binds_wf(b),
    decreases a.len(),
{
    if a.len() > 0 {
        assert(forall|j: int|
            0 <= j < a.len() - 1 ==> (#[trigger] a.drop_last()[j]) == a[j] && b.drop_last()[j]
                == b[j]);
        lemma_frame_map_congruent(a.drop_last(), b.drop_last());
        assert(frame_map(a) =~= frame_map(b));
    }
    if binds_wf(a) {
        assert forall|i: int, j: int| 0 <= i < j < b.len() implies (#[trigger] b[i]).0@ != (
        #[trigger] b[j]).0@ by {
            assert(a[i].0@ != a[j].0@);
        }
    }
    if binds_wf(b) {
        assert forall|i: int, j: int| 0 <= i < j < a.len() implies (#[trigger] a[i]).0@ != (
        #[trigger] a[j]).0@ by {
            assert(b[i].0@ != b[j].0@);
        }
    }
}

/// An arena of scopes with a shared output text. Lookups and definitions
/// work in the current frame; a lambda call adds a frame whose parent is
/// the lambda's defining frame, so scoping is lexical.
pub struct Environment {
    frames: Vec<Frame>,
    current: usize,
    output: String,
}

impl Environment {
    /// The environment as mathematics.
    pub closed spec fn em(&self) -> EnvM {
        EnvM {
            frames: self.frames@.map_values(|f: Frame| f.fm()),
            cur: self.current as int,
            out: self.output@,
        }
    }

    /// At least one frame, the current handle in range, every parent
    /// handle pointing at an earlier frame, and every name bound at most
    /// once per frame.
    pub closed spec fn wf(&self) -> bool {
        &&& self.frames@.len() >= 1
        &&& (self.current as int) < self.frames@.len()
        &&& forall|i: int|
            0 <= i < self.frames@.len() ==> binds_wf((#[trigger] self.frames@[i]).binds@)
        &&& forall|i: int|
            0 <= i < self.frames@.len() ==> match (#[trigger] self.frames@[i]).parent {
                Some(p) => (p as int) < i,
                None => true,
            }
    }

    /// Looks a name up from the current frame, outwards along the parent
    /// handles.
    pub fn find(&self, variable: &str) -> (r: Option<&Data>)
        requires
            self.wf(),
        ensures
            match r {
                Some(d) => lookup(self.em(), variable@) == Some(d@),
                None => lookup(self.em(), variable@) is None,
            },
    {
        let mut i: usize = self.current;
        loop
            invariant
                self.wf(),
                (i as int) < self.frames@.len(),
                lookup(self.em(), variable@) == lookup_from(
                    self.em().frames,
                    i as int,
                    variable@,
                ),
            decreases i,
        {
            proof {
                assert(self.em().frames[i as int] == self.frames@[i as int].fm());
            }
            let r = self.frames[i].get(variable);
            match r {
                Some(d) => {
                    return Some(d);
                },
                None => {
                    match self.frames[i].parent {
                        Some(p) => {
                            i = p;
                        },
                        None => {
                            return None;
                        },
                    }
                },
            }
        }
    }

    /// Binds a name in the current frame.
    fn insert(&mut self, name: String, value: Data)
        requires
            old(self).wf(),
        ensures
            final(self).wf(),
            final(self).em() == env_insert(old(self).em(), name@, dv(value)),
    {
        let cur = self.current;
        let ghost pre = self.frames@;
        let mut updated = self.frames[cur].duplicate();
        updated.put(name, value);
        self.frames.set(cur, updated);
        proof {
            assert(self.frames@.len() == pre.len());
            assert(forall|j: int|
                0 <= j < pre.len() && j != cur ==> self.frames@[j] == #[trigger] pre[j]);
            assert(self.em().frames =~= env_insert(old(self).em(), name@, dv(value)).frames);
        }
    }

    fn add_procedure(&mut self, proc_name: &str, op: NativeOp)
        requires
            old(self).wf(),
        ensures
            final(self).wf(),
            final(self).em() == env_insert(
                old(self).em(),
                proc_name@,
                proc_dv(proc_name@, op),
            ),
    {
        self.insert(String::from_str(proc_name), Data::new_proc(proc_name, op));
    }

    /// Appends text to the output.
    fn push_output(&mut self, text: &str)
        ensures
            final(self).em() == env_out(old(self).em(), text@),
            final(self).wf() == old(self).wf(),
    {
        self.output.append(text);
    }

    /// Hands the written output over and clears it; the bindings stay.
    pub fn take_output(&mut self) -> (res: String)
        ensures
            res@ == old(self).em().out,
            final(self).em().frames == old(self).em().frames,
            final(self).em().cur == old(self).em().cur,
            final(self).em().out == Seq::<char>::empty(),
            final(self).wf() == old(self).wf(),
    {
        let mut out = String::new();
        out.append(self.output.as_str());
        self.output = String::new();
        out
    }

    /// A child environment: a copy of the parent's arena plus one frame
    /// binding each parameter name to its argument, made current, with its
    /// parent handle the parent environment's current frame; no output yet.
    pub fn with_args(params: &Vec<Data>, args: &Vec<Data>, parent: &Environment) -> (res:
        Environment)
        requires
            parent.wf(),
            params@.len() == args@.len(),
        ensures
            res.wf(),
            res.em() == (EnvM {
                frames: parent.em().frames.push(
                    FrameM {
                        map: bind_map(dv_seq(params@), dv_seq(args@)),
                        parent: Some(parent.em().cur),
                    },
                ),
                cur: parent.em().frames.len() as int,
                out: Seq::empty(),
            }),
    {
        let n = parent.frames.len();
        let mut frames: Vec<Frame> = Vec::new();
        let mut i: usize = 0;
        while i < n
            invariant
                i <= n,
                n == parent.frames@.len(),
                frames@.len() == i,
                forall|j: int| 0 <= j < i ==> (#[trigger] frames@[j]).fm()
                    == parent.frames@[j].fm() && frames@[j].fwf() == parent.frames@[j].fwf()
                    && frames@[j].parent == parent.frames@[j].parent,
            decreases n - i,
        {
            let copied = parent.frames[i].duplicate();
            proof {
                assert(copied.parent == parent.frames@[i as int].parent);
            }
            frames.push(copied);
            i += 1;
        }
        let mut top = Frame::new(Some(parent.current));
        let m = params.len();
        let mut k: usize = 0;
        while k < m
            invariant
                k <= m,
                m == params@.len() == args@.len(),
                top.fwf(),
                top.parent == Some(parent.current),
                top.fm().map == bind_map(
                    dv_seq(params@).take(k as int),
                    dv_seq(args@).take(k as int),
                ),
            decreases m - k,
        {
            proof {
                lemma_dv_seq(params@);
                lemma_dv_seq(args@);
                assert(dv_seq(params@).take(k + 1).drop_last() =~= dv_seq(params@).take(
                    k as int,
                ));
                assert(dv_seq(args@).take(k + 1).drop_last() =~= dv_seq(args@).take(
                    k as int,
                ));
                assert(dv_seq(params@).take(k + 1).last() == dv(params@[k as int]));
                assert(dv_seq(args@).take(k + 1).last() == dv(args@[k as int]));
            }
            top.put(params[k].string.clone(), args[k].clone());
            k += 1;
        }
        frames.push(top);
        let res = Environment { frames, current: n, output: String::new() };
        proof {
            lemma_dv_seq(params@);
            lemma_dv_seq(args@);
            assert(dv_seq(params@).take(params@.len() as int) =~= dv_seq(params@));
            assert(dv_seq(args@).take(args@.len() as int) =~= dv_seq(args@));
            assert(res.em().frames =~= parent.em().frames.push(
                FrameM {
                    map: bind_map(dv_seq(params@), dv_seq(args@)),
                    parent: Some(parent.em().cur),
                },
            ));
        }
        res
    }
}

pub proof fn lemma_empty_text()
    ensures
        ""@ == Seq::<char>::empty(),
{
    reveal_strlit("");
    assert(""@ =~= Seq::<char>::empty());
}

/// The datum a `lambda` form evaluates to: the form's members kept
/// verbatim under the lambda kind, closing over the frame it was made in.
pub open spec fn spec_lambda_value(x: DV, cur: int) -> DV {
    DV {
        kind: DataType::Lambda,
        text: Seq::empty(),
        items: x.items,
        native: None,
        ql: 0,
        scope: Some(cur),
    }
}

/// One step of evaluation. Out of fuel, everything becomes the failure
/// value; the starting fuel is deep enough for any program that fits the
/// host stack.
pub open spec fn spec_eval(env: EnvM, x: DV, fuel: nat) -> (EnvM, DV)
    decreases fuel, 3int, 0int,
{
    if fuel == 0 {
        (env, invalid_dv())
    } else {
        match x.kind {
            DataType::Variable => match lookup(env, x.text) {
                Some(v) => (env, v),
                None => (
                    env_out(env, diag(ErrKind::Undefined, x.text, Seq::empty(), Seq::empty())),
                    invalid_dv(),
                ),
            },
            DataType::Symbol => if is_null_dv(x) {
                (env, null_dv())
            } else {
                (env, x)
            },
            DataType::Integer => (env, x),
            DataType::Real => (env, x),
            DataType::List => {
                if x.items.len() == 0 {
                    (
                        env_out(
                            env,
                            diag(ErrKind::MissingProcedure, "#%app"@, Seq::empty(), Seq::empty()),
                        ),
                        invalid_dv(),
                    )
                } else if x.items[0].kind == DataType::Variable && x.items[0].text
                    == "define"@ {
                    spec_eval_define(env, x, fuel)
                } else if x.items[0].kind == DataType::Variable && x.items[0].text
                    == "lambda"@ {
                    (env, spec_lambda_value(x, env.cur))
                } else if x.items[0].kind == DataType::Variable && x.items[0].text == "if"@ {
                    spec_eval_if(env, x, fuel)
                } else if x.items[0].kind == DataType::Variable && x.items[0].text
                    == "cond"@ {
                    spec_cond_iter(env, x, 1, fuel)
                } else if x.items[0].kind == DataType::Variable && x.items[0].text
                    == "apply"@ {
                    spec_eval_apply(env, x, fuel)
                } else if x.items[0].kind == DataType::Variable && x.items[0].text == "map"@ {
                    spec_eval_map(env, x, fuel)
                } else {
                    spec_eval_proc_lambda(env, x, fuel)
                }
            },
            DataType::Procedure => (env, x),
            DataType::Lambda => (env, x),
            DataType::Invalid => (env, invalid_dv()),
        }
    }
}

/// `define`: a name bound to a value, or a named procedure built as a
/// lambda; the bound value is also the result.
pub open spec fn spec_eval_define(env: EnvM, x: DV, fuel: nat) -> (EnvM, DV)
    decreases fuel, 2int, 0int,
{
    let n = x.items.len() as int;
    if fuel == 0 {
        (env, invalid_dv())
    } else if n < 3 {
        (
            env_out(
                env,
                diag(
                    ErrKind::BadSyntax,
                    "define"@,
                    "at least 2 arguments needed"@,
                    int_text(n - 1),
                ),
            ),
            invalid_dv(),
        )
    } else if n > 3 && x.items[1].kind != DataType::List {
        (
            env_out(
                env,
                diag(
                    ErrKind::BadSyntax,
                    "define"@,
                    "exactly one expression after identifier"@,
                    Seq::empty(),
                ),
            ),
            invalid_dv(),
        )
    } else if x.items[1].kind == DataType::List {
        if x.items[1].items.len() == 0 {
            (
                env_out(
                    env,
                    diag(ErrKind::BadSyntax, "define"@, "an identifier to define"@, Seq::empty()),
                ),
                invalid_dv(),
            )
        } else {
            let identifier = x.items[1].items[0].text;
            let lam = DV {
                kind: DataType::Lambda,
                text: identifier,
                items: seq![leaf_dv(DataType::Variable, "lambda"@, 0)] + seq![
                    (DV {
                        kind: DataType::List,
                        text: Seq::empty(),
                        items: x.items[1].items.skip(1),
                        native: None,
                        ql: 0,
                        scope: None,
                    }),
                ] + x.items.skip(2),
                native: None,
                ql: 0,
                scope: Some(env.cur),
            };
            (env_insert(env, identifier, lam), lam)
        }
    } else {
        let stepped = spec_eval(env, x.items[2], (fuel - 1) as nat);
        (env_insert(stepped.0, x.items[1].text, stepped.1), stepped.1)
    }
}

/// `if`: only the false literal fails the test; a missing else branch
/// gives the void marker.
pub open spec fn spec_eval_if(env: EnvM, x: DV, fuel: nat) -> (EnvM, DV)
    decreases fuel, 2int, 0int,
{
    let n = x.items.len() as int;
    if fuel == 0 {
        (env, invalid_dv())
    } else if n < 3 || n > 4 {
        (
            env_out(env, diag(ErrKind::ArityMismatch, "if"@, "2 or 3"@, int_text(n - 1))),
            invalid_dv(),
        )
    } else {
        let cond_step = spec_eval(env, x.items[1], (fuel - 1) as nat);
        if !is_false_dv(cond_step.1) {
            spec_eval(cond_step.0, x.items[2], (fuel - 1) as nat)
        } else if n == 3 {
            (cond_step.0, void_dv())
        } else {
            spec_eval(cond_step.0, x.items[3], (fuel - 1) as nat)
        }
    }
}

/// `cond`, clause by clause: the first clause whose test is not false has
/// its body evaluated; no clause matching gives the void marker.
pub open spec fn spec_cond_iter(env: EnvM, x: DV, i: int, fuel: nat) -> (EnvM, DV)
    decreases fuel, 1int, x.items.len() - i,
{
    if fuel == 0 || i < 1 {
        (env, invalid_dv())
    } else if i >= x.items.len() {
        (env, void_dv())
    } else {
        let clause = x.items[i];
        if clause.kind != DataType::List || clause.items.len() == 0 {
            (
                env_out(env, diag(ErrKind::BadSyntax, "cond"@, "pair?"@, spec_render(clause, 0))),
                invalid_dv(),
            )
        } else {
            let is_else = clause.items[0].text == "else"@;
            if is_else && clause.items.len() == 1 {
                (
                    env_out(
                        env,
                        diag(
                            ErrKind::BadSyntax,
                            "cond"@,
                            "expression in `else` clause"@,
                            Seq::empty(),
                        ),
                    ),
                    invalid_dv(),
                )
            } else {
                let tested: (EnvM, DV) = if is_else {
                    (env, invalid_dv())
                } else {
                    spec_eval(env, clause.items[0], (fuel - 1) as nat)
                };
                if !is_false_dv(tested.1) {
                    spec_clause_body(tested.0, clause, 1, tested.1, fuel)
                } else {
                    spec_cond_iter(tested.0, x, i + 1, fuel)
                }
            }
        }
    }
}

/// A clause body evaluated left to right, stopping at the first failure;
/// the last value is the result.
pub open spec fn spec_clause_body(env: EnvM, clause: DV, j: int, last: DV, fuel: nat) -> (
    EnvM,
    DV,
)
    decreases fuel, 0int, clause.items.len() - j,
{
    if fuel == 0 || j < 1 {
        (env, invalid_dv())
    } else if j >= clause.items.len() {
        (env, last)
    } else {
        let stepped = spec_eval(env, clause.items[j], (fuel - 1) as nat);
        if is_invalid_dv(stepped.1) {
            (stepped.0, stepped.1)
        } else {
            spec_clause_body(stepped.0, clause, j + 1, stepped.1, fuel)
        }
    }
}

/// `apply`: the procedure expression spliced onto the members of an
/// evaluated proper list, evaluated as an application.
pub open spec fn spec_eval_apply(env: EnvM, x: DV, fuel: nat) -> (EnvM, DV)
    decreases fuel, 2int, 0int,
{
    let n = x.items.len() as int;
    if fuel == 0 {
        (env, invalid_dv())
    } else if n != 3 {
        (
            env_out(env, diag(ErrKind::ArityMismatch, "apply"@, "2"@, int_text(n - 1))),
            invalid_dv(),
        )
    } else {
        let proc_step = spec_eval(env, x.items[1], (fuel - 1) as nat);
        if !(proc_step.1.kind == DataType::Procedure || proc_step.1.kind == DataType::Lambda) {
            (
                env_out(
                    proc_step.0,
                    diag(
                        ErrKind::ContractViolation,
                        "apply"@,
                        "a procedure that can be applied to arguments"@,
                        spec_render(proc_step.1, 0),
                    ),
                ),
                invalid_dv(),
            )
        } else {
            let list_step = spec_eval(proc_step.0, x.items[2], (fuel - 1) as nat);
            if is_invalid_dv(list_step.1) {
                (list_step.0, list_step.1)
            } else if !is_list_dv(list_step.1) {
                (
                    env_out(
                        list_step.0,
                        diag(
                            ErrKind::ContractViolation,
                            "apply"@,
                            "list?"@,
                            spec_render(list_step.1, 0),
                        ),
                    ),
                    invalid_dv(),
                )
            } else {
                let members: Seq<DV> = if list_step.1.items.len() == 0 {
                    Seq::empty()
                } else {
                    list_step.1.items.drop_last()
                };
                let to_eval = DV {
                    kind: DataType::List,
                    text: Seq::empty(),
                    items: seq![x.items[1]] + members,
                    native: None,
                    ql: 0,
                    scope: None,
                };
                spec_eval(list_step.0, to_eval, (fuel - 1) as nat)
            }
        }
    }
}

/// The arguments handed to one `map` application: the member at position
/// `i` of every list argument, each list checked for shape and length.
pub open spec fn spec_map_args(x: DV, i: int, j: int, len0: int) -> Result<Seq<DV>, Seq<char>>
    decreases x.items.len() - j,
{
    if j < 2 || j >= x.items.len() {
        Ok(Seq::empty())
    } else {
        let lst = x.items[j];
        if !is_list_dv(lst) {
            Err(diag(ErrKind::ContractViolation, "map"@, "list?"@, spec_render(lst, 0)))
        } else if lst.items.len() != len0 {
            Err(
                diag(
                    ErrKind::ContractViolation,
                    "map"@,
                    "all lists must have same size"@,
                    int_text(len0 - 1) + " and "@ + int_text(
                        if lst.items.len() == 0 {
                            0
                        } else {
                            lst.items.len() - 1
                        },
                    ),
                ),
            )
        } else if !(0 <= i < len0) {
            Ok(Seq::empty())
        } else {
            match spec_map_args(x, i, j + 1, len0) {
                Ok(rest) => Ok(seq![lst.items[i]] + rest),
                Err(e) => Err(e),
            }
        }
    }
}

/// `map`, position by position: each application's result collected in
/// order, the collection closed with the empty-list terminator.
pub open spec fn spec_map_iter(env: EnvM, x: DV, i: int, acc: Seq<DV>, len0: int, fuel: nat)
    -> (EnvM, DV)
    decreases fuel, 1int, len0 - i,
{
    if fuel == 0 || i < 0 {
        (env, invalid_dv())
    } else if i >= len0 - 1 {
        (
            env,
            DV {
                kind: DataType::List,
                text: Seq::empty(),
                items: acc.push(null_dv()),
                native: None,
                ql: 0,
                scope: None,
            },
        )
    } else {
        match spec_map_args(x, i, 2, len0) {
            Err(e) => (env_out(env, e), invalid_dv()),
            Ok(argvals) => {
                let to_eval = DV {
                    kind: DataType::List,
                    text: Seq::empty(),
                    items: seq![x.items[1]] + argvals,
                    native: None,
                    ql: 0,
                    scope: None,
                };
                let stepped = spec_eval(env, to_eval, (fuel - 1) as nat);
                spec_map_iter(stepped.0, x, i + 1, acc.push(stepped.1), len0, fuel)
            },
        }
    }
}

/// `map`: a procedure over proper lists of equal length.
pub open spec fn spec_eval_map(env: EnvM, x: DV, fuel: nat) -> (EnvM, DV)
    decreases fuel, 2int, 0int,
{
    let n = x.items.len() as int;
    if fuel == 0 {
        (env, invalid_dv())
    } else if n < 3 {
        (
            env_out(env, diag(ErrKind::ArityMismatch, "map"@, "at least 2"@, int_text(n - 1))),
            invalid_dv(),
        )
    } else {
        let proc_step = spec_eval(env, x.items[1], (fuel - 1) as nat);
        if !(proc_step.1.kind == DataType::Procedure || proc_step.1.kind == DataType::Lambda) {
            (
                env_out(
                    proc_step.0,
                    diag(
                        ErrKind::ContractViolation,
                        "map"@,
                        "a procedure that can be applied to arguments"@,
                        spec_render(proc_step.1, 0),
                    ),
                ),
                invalid_dv(),
            )
        } else if !is_list_dv(x.items[2]) {
            (
                env_out(
                    proc_step.0,
                    diag(
                        ErrKind::ContractViolation,
                        "map"@,
                        "list?"@,
                        spec_render(x.items[2], 0),
                    ),
                ),
                invalid_dv(),
            )
        } else if x.items[2].items.len() == 0 {
            (proc_step.0, null_dv())
        } else {
            spec_map_iter(proc_step.0, x, 0, Seq::empty(), x.items[2].items.len() as int, fuel)
        }
    }
}

/// The operand expressions evaluated left to right; the first failure
/// stops the walk.
pub open spec fn spec_eval_args(env: EnvM, x: DV, i: int, acc: Seq<DV>, fuel: nat) -> (
    EnvM,
    Seq<DV>,
    bool,
)
    decreases fuel, 1int, x.items.len() - i,
{
    if fuel == 0 || i < 1 {
        (env, acc, false)
    } else if i >= x.items.len() {
        (env, acc, true)
    } else {
        let stepped = spec_eval(env, x.items[i], (fuel - 1) as nat);
        if is_invalid_dv(stepped.1) {
            (stepped.0, acc, false)
        } else {
            spec_eval_args(stepped.0, x, i + 1, acc.push(stepped.1), fuel)
        }
    }
}

/// A lambda body evaluated left to right in its own environment; the last
/// value is the result and the first failure stops the walk.
pub open spec fn spec_body_iter(env: EnvM, lam: DV, j: int, last: DV, fuel: nat) -> (EnvM, DV)
    decreases fuel, 0int, lam.items.len() - j,
{
    if fuel == 0 || j < 2 {
        (env, invalid_dv())
    } else if j >= lam.items.len() {
        (env, last)
    } else {
        let stepped = spec_eval(env, lam.items[j], (fuel - 1) as nat);
        if is_invalid_dv(stepped.1) {
            (stepped.0, stepped.1)
        } else {
            spec_body_iter(stepped.0, lam, j + 1, stepped.1, fuel)
        }
    }
}

/// Application: the head evaluated to something callable, the operands
/// evaluated in order, then a lambda run in a fresh frame whose parent is
/// the lambda's defining frame (lexical scoping; a value without a valid
/// handle falls back to the calling frame), or a built-in applied
/// directly. The caller's current frame and bindings stay; frames made
/// during the call remain in the arena, reachable only through values
/// that captured them.
pub open spec fn spec_eval_proc_lambda(env: EnvM, x: DV, fuel: nat) -> (EnvM, DV)
    decreases fuel, 2int, 0int,
{
    if fuel == 0 {
        (env, invalid_dv())
    } else if x.items.len() == 0 {
        (env, invalid_dv())
    } else {
        let proc_step = spec_eval(env, x.items[0], (fuel - 1) as nat);
        if is_invalid_dv(proc_step.1) {
            (proc_step.0, proc_step.1)
        } else if !(proc_step.1.kind == DataType::Lambda || proc_step.1.kind
            == DataType::Procedure) {
            (
                env_out(
                    proc_step.0,
                    diag(
                        ErrKind::NotAProcedure,
                        "application"@,
                        Seq::empty(),
                        spec_render(x.items[0], 0),
                    ),
                ),
                invalid_dv(),
            )
        } else {
            let walked = spec_eval_args(proc_step.0, x, 1, Seq::empty(), fuel);
            if !walked.2 {
                (walked.0, invalid_dv())
            } else if proc_step.1.kind == DataType::Lambda {
                if proc_step.1.items.len() < 2 {
                    (walked.0, invalid_dv())
                } else {
                    let params = proc_step.1.items[1].items;
                    if params.len() != walked.1.len() {
                        (
                            env_out(
                                walked.0,
                                diag(
                                    ErrKind::ArityMismatch,
                                    x.items[0].text,
                                    int_text(params.len() as int),
                                    int_text(walked.1.len() as int),
                                ),
                            ),
                            invalid_dv(),
                        )
                    } else {
                        let ph: int = match proc_step.1.scope {
                            Some(h) => if 0 <= h < walked.0.frames.len() {
                                h
                            } else {
                                walked.0.cur
                            },
                            None => walked.0.cur,
                        };
                        let child = EnvM {
                            frames: walked.0.frames.push(
                                FrameM { map: bind_map(params, walked.1), parent: Some(ph) },
                            ),
                            cur: walked.0.frames.len() as int,
                            out: walked.0.out,
                        };
                        let finished = spec_body_iter(child, proc_step.1, 2, invalid_dv(), fuel);
                        (
                            EnvM {
                                frames: finished.0.frames,
                                cur: walked.0.cur,
                                out: finished.0.out,
                            },
                            finished.1,
                        )
                    }
                }
            } else {
                match proc_step.1.native {
                    Some(op) => {
                        let applied = spec_apply_native(op, walked.1);
                        (env_out(walked.0, applied.1), applied.0)
                    },
                    None => (walked.0, null_dv()),
                }
            }
        }
    }
}


/// The bindings of the root environment: the boolean and empty-list
/// literals, then every built-in procedure under its name.
pub open spec fn root_frame() -> Map<Seq<char>, DV> {
    Map::empty().insert("#f"@, false_dv()).insert("#t"@, true_dv()).insert("'()"@, null_dv())
        .insert("+"@, proc_dv("+"@, NativeOp::Add)).insert(
        "-"@,
        proc_dv("-"@, NativeOp::Subtract),
    ).insert("*"@, proc_dv("*"@, NativeOp::Multiply)).insert(
        "/"@,
        proc_dv("/"@, NativeOp::Divide),
    ).insert("list"@, proc_dv("list"@, NativeOp::ListOf)).insert(
        "null?"@,
        proc_dv("null?"@, NativeOp::IsNull),
    ).insert("pair?"@, proc_dv("pair?"@, NativeOp::IsPair)).insert(
        "list?"@,
        proc_dv("list?"@, NativeOp::IsList),
    ).insert("string?"@, proc_dv("string?"@, NativeOp::IsString)).insert(
        "cons"@,
        proc_dv("cons"@, NativeOp::Cons),
    ).insert("car"@, proc_dv("car"@, NativeOp::Car)).insert(
        "cdr"@,
        proc_dv("cdr"@, NativeOp::Cdr),
    ).insert("number?"@, proc_dv("number?"@, NativeOp::IsNumber)).insert(
        "integer?"@,
        proc_dv("integer?"@, NativeOp::IsInteger),
    ).insert("real?"@, proc_dv("real?"@, NativeOp::IsReal)).insert(
        "="@,
        proc_dv("="@, NativeOp::Equals),
    ).insert("<"@, proc_dv("<"@, NativeOp::Less)).insert(
        "<="@,
        proc_dv("<="@, NativeOp::LessOrEqual),
    ).insert(">"@, proc_dv(">"@, NativeOp::Greater)).insert(
        ">="@,
        proc_dv(">="@, NativeOp::GreaterOrEqual),
    ).insert("and"@, proc_dv("and"@, NativeOp::And)).insert(
        "or"@,
        proc_dv("or"@, NativeOp::Or),
    ).insert("remainder"@, proc_dv("remainder"@, NativeOp::Remainder)).insert(
        "quotient"@,
        proc_dv("quotient"@, NativeOp::Quotient),
    ).insert("expt"@, proc_dv("expt"@, NativeOp::Expt)).insert(
        "max"@,
        proc_dv("max"@, NativeOp::Max),
    ).insert("display"@, proc_dv("display"@, NativeOp::Print))
}

/// How deep one evaluation may recurse before it gives up with the
/// failure value; deep enough for any program the host stack survives.
pub const EVAL_FUEL: u64 = 4096;

impl Environment {
    /// The root environment: one frame holding the literals and the
    /// built-in procedures, and no output.
    #[verifier::rlimit(100)]
    pub fn new() -> (res: Environment)
        ensures
            res.wf(),
            res.em() == (EnvM {
                frames: seq![FrameM { map: root_frame(), parent: None }],
                cur: 0,
                out: Seq::empty(),
            }),
    {
        let mut frames: Vec<Frame> = Vec::new();
        frames.push(Frame::new(None));
        let mut res = Environment { frames, current: 0, output: String::new() };
        proof {
            assert(res.em().frames =~= seq![
                FrameM { map: Map::<Seq<char>, DV>::empty(), parent: None },
            ]);
        }
        res.insert(String::from_str("#f"), new_false_sym());
        res.insert(String::from_str("#t"), new_true_sym());
        res.insert(String::from_str("'()"), null_sym());
        res.add_procedure("+", NativeOp::Add);
        res.add_procedure("-", NativeOp::Subtract);
        res.add_procedure("*", NativeOp::Multiply);
        res.add_procedure("/", NativeOp::Divide);
        res.add_procedure("list", NativeOp::ListOf);
        res.add_procedure("null?", NativeOp::IsNull);
        res.add_procedure("pair?", NativeOp::IsPair);
        res.add_procedure("list?", NativeOp::IsList);
        res.add_procedure("string?", NativeOp::IsString);
        res.add_procedure("cons", NativeOp::Cons);
        res.add_procedure("car", NativeOp::Car);
        res.add_procedure("cdr", NativeOp::Cdr);
        res.add_procedure("number?", NativeOp::IsNumber);
        res.add_procedure("integer?", NativeOp::IsInteger);
        res.add_procedure("real?", NativeOp::IsReal);
        res.add_procedure("=", NativeOp::Equals);
        res.add_procedure("<", NativeOp::Less);
        res.add_procedure("<=", NativeOp::LessOrEqual);
        res.add_procedure(">", NativeOp::Greater);
        res.add_procedure(">=", NativeOp::GreaterOrEqual);
        res.add_procedure("and", NativeOp::And);
        res.add_procedure("or", NativeOp::Or);
        res.add_procedure("remainder", NativeOp::Remainder);
        res.add_procedure("quotient", NativeOp::Quotient);
        res.add_procedure("expt", NativeOp::Expt);
        res.add_procedure("max", NativeOp::Max);
        res.add_procedure("display", NativeOp::Print);
        proof {
            assert(res.em().frames =~= seq![FrameM { map: root_frame(), parent: None }]);
        }
        res
    }

    /// Evaluates one datum against this environment.
    pub fn eval(&mut self, data: &Data) -> (res: Data)
        requires
            old(self).wf(),
        ensures
            final(self).wf(),
            final(self).em().frames.len() >= old(self).em().frames.len(),
            final(self).em().cur == old(self).em().cur,
            ({
                let stepped = spec_eval(old(self).em(), data@, EVAL_FUEL as nat);
                final(self).em() == stepped.0 && res@ == stepped.1
            }),
    {
        self.eval_fuel(data, EVAL_FUEL)
    }

    fn eval_fuel(&mut self, data: &Data, fuel: u64) -> (res: Data)
        requires
            old(self).wf(),
        ensures
            final(self).wf(),
            final(self).em().frames.len() >= old(self).em().frames.len(),
            final(self).em().cur == old(self).em().cur,
            ({
                let stepped = spec_eval(old(self).em(), data@, fuel as nat);
                final(self).em() == stepped.0 && res@ == stepped.1
            }),
        decreases fuel, 3int, 0int,
    {
        if fuel == 0 {
            return invalid_data();
        }
        proof {
            lemma_empty_text();
            lemma_dv_seq(data.list@);
        }
        match data.data_type {
            DataType::Variable => {
                let found_value: Option<Data> = match self.find(data.string.as_str()) {
                    Some(x) => Some(x.clone()),
                    None => None,
                };
                match found_value {
                    Some(x) => x,
                    None => {
                        let d = error_text(ErrKind::Undefined, data.string.as_str(), "", "");
                        self.push_output(d.as_str());
                        invalid_data()
                    },
                }
            },
            DataType::Symbol => {
                if is_null_sym(data) {
                    null_sym()
                } else {
                    data.clone()
                }
            },
            DataType::Integer => data.clone(),
            DataType::Real => data.clone(),
            DataType::List => {
                if data.list.len() == 0 {
                    let d = error_text(ErrKind::MissingProcedure, "#%app", "", "");
                    self.push_output(d.as_str());
                    return invalid_data();
                }
                let head_is_var = data.list[0].data_type == DataType::Variable;
                if head_is_var && data.list[0].string == String::from_str("define") {
                    self.eval_define(data, fuel)
                } else if head_is_var && data.list[0].string == String::from_str("lambda") {
                    self.eval_lambda(data)
                } else if head_is_var && data.list[0].string == String::from_str("if") {
                    self.eval_if(data, fuel)
                } else if head_is_var && data.list[0].string == String::from_str("cond") {
                    self.eval_cond(data, fuel)
                } else if head_is_var && data.list[0].string == String::from_str("apply") {
                    self.eval_apply(data, fuel)
                } else if head_is_var && data.list[0].string == String::from_str("map") {
                    self.eval_map(data, fuel)
                } else {
                    self.eval_proc_lambda_fuel(data, fuel)
                }
            },
            DataType::Procedure => data.clone(),
            DataType::Lambda => data.clone(),
            DataType::Invalid => invalid_data(),
        }
    }

    /// `lambda`: the form kept verbatim as a lambda value.
    fn eval_lambda(&self, data: &Data) -> (res: Data)
        ensures
            res@ == spec_lambda_value(data@, self.em().cur),
    {
        let mut items: Vec<Data> = Vec::new();
        let n = data.list.len();
        let mut i: usize = 0;
        while i < n
            invariant
                i <= n,
                n == data.list@.len(),
                items@.len() == i,
                forall|j: int| 0 <= j < i ==> (#[trigger] items@[j])@ == data.list@[j]@,
            decreases n - i,
        {
            items.push(data.list[i].clone());
            i += 1;
        }
        let ghost itemsv = items@;
        let res = Data {
            list: items,
            string: String::new(),
            native: None,
            data_type: DataType::Lambda,
            quote_level: 0,
            scope: Some(self.current),
        };
        proof {
            lemma_dv_seq(itemsv);
            lemma_dv_seq(data.list@);
            assert forall|j: int| 0 <= j < itemsv.len() implies #[trigger] dv_seq(itemsv)[j]
                == dv_seq(data.list@)[j] by {
                assert(dv_seq(itemsv)[j] == dv(itemsv[j]));
                assert(dv_seq(data.list@)[j] == dv(data.list@[j]));
            }
            assert(dv_seq(itemsv) =~= dv_seq(data.list@));
            assert(res@ =~~= spec_lambda_value(data@, self.em().cur));
        }
        res
    }

    fn eval_define(&mut self, data: &Data, fuel: u64) -> (res: Data)
        requires
            old(self).wf(),
            fuel >= 1,
            data.list@.len() >= 1,
        ensures
            final(self).wf(),
            final(self).em().frames.len() >= old(self).em().frames.len(),
            final(self).em().cur == old(self).em().cur,
            ({
                let stepped = spec_eval_define(old(self).em(), data@, fuel as nat);
                final(self).em() == stepped.0 && res@ == stepped.1
            }),
        decreases fuel, 2int, 0int,
    {
        proof {
            lemma_empty_text();
            lemma_dv_seq(data.list@);
        }
        let n = data.list.len();
        if n < 3 {
            let count = usize_string(n - 1);
            let d = error_text(
                ErrKind::BadSyntax,
                "define",
                "at least 2 arguments needed",
                count.as_str(),
            );
            self.push_output(d.as_str());
            return invalid_data();
        }
        if n > 3 && data.list[1].data_type != DataType::List {
            let d = error_text(
                ErrKind::BadSyntax,
                "define",
                "exactly one expression after identifier",
                "",
            );
            self.push_output(d.as_str());
            return invalid_data();
        }
        if data.list[1].data_type == DataType::List {
            proof {
                lemma_dv_seq(data.list@[1].list@);
            }
            if data.list[1].list.len() == 0 {
                let d = error_text(ErrKind::BadSyntax, "define", "an identifier to define", "");
                self.push_output(d.as_str());
                return invalid_data();
            }
            let identifier = data.list[1].list[0].string.clone();
            let mut items: Vec<Data> = Vec::new();
            items.push(Data::from_string(DataType::Variable, String::from_str("lambda")));
            let mut params: Vec<Data> = Vec::new();
            let pn = data.list[1].list.len();
            let mut i: usize = 1;
            while i < pn
                invariant
                    1 <= i <= pn,
                    data.list@.len() >= 2,
                    pn == data.list@[1].list@.len(),
                    params@.len() == i - 1,
                    forall|j: int| 0 <= j < i - 1 ==> (#[trigger] params@[j])@
                        == data.list@[1].list@[j + 1]@,
                decreases pn - i,
            {
                params.push(data.list[1].list[i].clone());
                i += 1;
            }
            let ghost paramsv = params@;
            items.push(Data::from_list(params));
            let bn = data.list.len();
            let mut k: usize = 2;
            while k < bn
                invariant
                    2 <= k <= bn,
                    bn == data.list@.len(),
                    items@.len() == k,
                    forall|j: int| 2 <= j < k ==> (#[trigger] items@[j])@ == data.list@[j]@,
                    items@.len() >= 2,
                    items@[0]@ == leaf_dv(DataType::Variable, "lambda"@, 0),
                    items@[1]@ == (DV {
                        kind: DataType::List,
                        text: Seq::empty(),
                        items: dv_seq(paramsv),
                        native: None,
                        ql: 0,
                        scope: None,
                    }),
                decreases bn - k,
            {
                items.push(data.list[k].clone());
                k += 1;
            }
            let ghost itemsv = items@;
            let res = Data {
                list: items,
                string: identifier.clone(),
                native: None,
                data_type: DataType::Lambda,
                quote_level: 0,
                scope: Some(self.current),
            };
            proof {
                lemma_dv_seq(itemsv);
                lemma_dv_seq(data.list@);
                lemma_dv_seq(data.list@[1].list@);
                lemma_dv_seq(paramsv);
                let spec_lam = spec_eval_define(old(self).em(), data@, fuel as nat).1;
                assert forall|j: int| 0 <= j < paramsv.len() implies #[trigger] dv_seq(
                    paramsv,
                )[j] == dv(data.list@[1].list@[j + 1]) by {
                    assert(dv_seq(paramsv)[j] == dv(paramsv[j]));
                }
                assert(dv_seq(paramsv) =~= dv(data.list@[1]).items.skip(1));
                assert forall|j: int| 0 <= j < itemsv.len() implies #[trigger] dv_seq(
                    itemsv,
                )[j] == spec_lam.items[j] by {
                    assert(dv_seq(itemsv)[j] == dv(itemsv[j]));
                    if j >= 2 {
                        assert(dv_seq(data.list@)[j] == dv(data.list@[j]));
                        assert(data@.items.skip(2)[j - 2] == data@.items[j]);
                    }
                }
                assert(dv_seq(itemsv) =~= spec_lam.items);
                assert(res@ =~~= spec_lam);
            }
            self.insert(identifier, res.clone());
            res
        } else {
            let value = self.eval_fuel(&data.list[2], fuel - 1);
            let identifier = data.list[1].string.clone();
            self.insert(identifier, value.clone());
            value
        }
    }

    fn eval_if(&mut self, data: &Data, fuel: u64) -> (res: Data)
        requires
            old(self).wf(),
            fuel >= 1,
            data.list@.len() >= 1,
        ensures
            final(self).wf(),
            final(self).em().frames.len() >= old(self).em().frames.len(),
            final(self).em().cur == old(self).em().cur,
            ({
                let stepped = spec_eval_if(old(self).em(), data@, fuel as nat);
                final(self).em() == stepped.0 && res@ == stepped.1
            }),
        decreases fuel, 2int, 0int,
    {
        proof {
            lemma_dv_seq(data.list@);
        }
        let n = data.list.len();
        if n < 3 || n > 4 {
            let count = usize_string(n - 1);
            let d = error_text(ErrKind::ArityMismatch, "if", "2 or 3", count.as_str());
            self.push_output(d.as_str());
            return invalid_data();
        }
        let cond_value = self.eval_fuel(&data.list[1], fuel - 1);
        if !is_false_sym(&cond_value) {
            self.eval_fuel(&data.list[2], fuel - 1)
        } else if n == 3 {
            new_void_data()
        } else {
            self.eval_fuel(&data.list[3], fuel - 1)
        }
    }

    fn eval_cond(&mut self, data: &Data, fuel: u64) -> (res: Data)
        requires
            old(self).wf(),
            fuel >= 1,
        ensures
            final(self).wf(),
            final(self).em().frames.len() >= old(self).em().frames.len(),
            final(self).em().cur == old(self).em().cur,
            ({
                let stepped = spec_cond_iter(old(self).em(), data@, 1, fuel as nat);
                final(self).em() == stepped.0 && res@ == stepped.1
            }),
        decreases fuel, 2int, 0int,
    {
        self.cond_iter(data, 1, fuel)
    }

    fn cond_iter(&mut self, data: &Data, i: usize, fuel: u64) -> (res: Data)
        requires
            old(self).wf(),
            fuel >= 1,
            i >= 1,
        ensures
            final(self).wf(),
            final(self).em().frames.len() >= old(self).em().frames.len(),
            final(self).em().cur == old(self).em().cur,
            ({
                let stepped = spec_cond_iter(old(self).em(), data@, i as int, fuel as nat);
                final(self).em() == stepped.0 && res@ == stepped.1
            }),
        decreases fuel, 1int, data.list@.len() - i,
    {
        proof {
            lemma_empty_text();
            lemma_dv_seq(data.list@);
        }
        if i >= data.list.len() {
            return new_void_data();
        }
        proof {
            lemma_dv_seq(data.list@[i as int].list@);
        }
        let clause = &data.list[i];
        if clause.data_type != DataType::List || clause.list.len() == 0 {
            let shown = clause.render(0);
            let d = error_text(ErrKind::BadSyntax, "cond", "pair?", shown.as_str());
            self.push_output(d.as_str());
            return invalid_data();
        }
        let is_else = clause.list[0].string == String::from_str("else");
        if is_else && clause.list.len() == 1 {
            let d = error_text(ErrKind::BadSyntax, "cond", "expression in `else` clause", "");
            self.push_output(d.as_str());
            return invalid_data();
        }
        let tested: Data = if is_else {
            invalid_data()
        } else {
            self.eval_fuel(&data.list[i].list[0], fuel - 1)
        };
        if !is_false_sym(&tested) {
            self.clause_body(&data.list[i], 1, tested, fuel)
        } else {
            self.cond_iter(data, i + 1, fuel)
        }
    }

    fn clause_body(&mut self, clause: &Data, j: usize, last: Data, fuel: u64) -> (res: Data)
        requires
            old(self).wf(),
            fuel >= 1,
            j >= 1,
        ensures
            final(self).wf(),
            final(self).em().frames.len() >= old(self).em().frames.len(),
            final(self).em().cur == old(self).em().cur,
            ({
                let stepped = spec_clause_body(
                    old(self).em(),
                    clause@,
                    j as int,
                    last@,
                    fuel as nat,
                );
                final(self).em() == stepped.0 && res@ == stepped.1
            }),
        decreases fuel, 0int, clause.list@.len() - j,
    {
        proof {
            lemma_dv_seq(clause.list@);
        }
        if j >= clause.list.len() {
            return last;
        }
        let r = self.eval_fuel(&clause.list[j], fuel - 1);
        if is_invalid_data(&r) {
            r
        } else {
            self.clause_body(clause, j + 1, r, fuel)
        }
    }
}


impl Environment {
    fn eval_apply(&mut self, data: &Data, fuel: u64) -> (res: Data)
        requires
            old(self).wf(),
            fuel >= 1,
            data.list@.len() >= 1,
        ensures
            final(self).wf(),
            final(self).em().frames.len() >= old(self).em().frames.len(),
            final(self).em().cur == old(self).em().cur,
            ({
                let stepped = spec_eval_apply(old(self).em(), data@, fuel as nat);
                final(self).em() == stepped.0 && res@ == stepped.1
            }),
        decreases fuel, 2int, 0int,
    {
        proof {
            lemma_dv_seq(data.list@);
        }
        let n = data.list.len();
        if n != 3 {
            let count = usize_string(n - 1);
            let d = error_text(ErrKind::ArityMismatch, "apply", "2", count.as_str());
            self.push_output(d.as_str());
            return invalid_data();
        }
        let proc_value = self.eval_fuel(&data.list[1], fuel - 1);
        if !(proc_value.data_type == DataType::Procedure || proc_value.data_type
            == DataType::Lambda) {
            let shown = proc_value.render(0);
            let d = error_text(
                ErrKind::ContractViolation,
                "apply",
                "a procedure that can be applied to arguments",
                shown.as_str(),
            );
            self.push_output(d.as_str());
            return invalid_data();
        }
        let list_value = self.eval_fuel(&data.list[2], fuel - 1);
        if is_invalid_data(&list_value) {
            return list_value;
        }
        if !is_list_data(&list_value) {
            let shown = list_value.render(0);
            let d = error_text(ErrKind::ContractViolation, "apply", "list?", shown.as_str());
            self.push_output(d.as_str());
            return invalid_data();
        }
        let mut items: Vec<Data> = Vec::new();
        items.push(data.list[1].clone());
        let m = list_value.list.len();
        let mut i: usize = 0;
        while i < m
            invariant
                i <= m,
                m == list_value.list@.len(),
                data.list@.len() == 3,
                items@.len() == 1 + i,
                items@[0]@ == data.list@[1]@,
                forall|j: int| 1 <= j < i + 1 ==> (#[trigger] items@[j])@
                    == list_value.list@[j - 1]@,
            decreases m - i,
        {
            items.push(list_value.list[i].clone());
            i += 1;
        }
        if items.len() > 1 {
            items.pop();
        }
        let ghost itemsv = items@;
        let to_eval = Data::from_list(items);
        proof {
            lemma_dv_seq(itemsv);
            lemma_dv_seq(data.list@);
            lemma_dv_seq(list_value.list@);
            let members: Seq<DV> = if dv(list_value).items.len() == 0 {
                Seq::empty()
            } else {
                dv(list_value).items.drop_last()
            };
            let target = seq![dv(data.list@[1])] + members;
            assert forall|j: int| 0 <= j < itemsv.len() implies #[trigger] dv_seq(itemsv)[j]
                == target[j] by {
                assert(dv_seq(itemsv)[j] == dv(itemsv[j]));
                if j >= 1 {
                    assert(dv_seq(list_value.list@)[j - 1] == dv(list_value.list@[j - 1]));
                }
            }
            assert(dv_seq(itemsv) =~= target);
        }
        self.eval_fuel(&to_eval, fuel - 1)
    }

    fn map_args(data: &Data, i: usize, j: usize, len0: usize) -> (res: Result<
        Vec<Data>,
        String,
    >)
        requires
            len0 >= 1,
        ensures
            match (res, spec_map_args(data@, i as int, j as int, len0 as int)) {
                (Ok(v), Ok(s)) => dv_seq(v@) == s,
                (Err(t), Err(e)) => t@ == e,
                _ => false,
            },
        decreases data.list@.len() - j,
    {
        proof {
            lemma_dv_seq(data.list@);
        }
        if j < 2 || j >= data.list.len() {
            let empty_args: Vec<Data> = Vec::new();
            proof {
                assert(dv_seq(empty_args@) =~= Seq::<DV>::empty());
            }
            return Ok(empty_args);
        }
        proof {
            lemma_dv_seq(data.list@[j as int].list@);
        }
        let lst = &data.list[j];
        if !is_list_data(lst) {
            let shown = lst.render(0);
            return Err(error_text(ErrKind::ContractViolation, "map", "list?", shown.as_str()));
        }
        if lst.list.len() != len0 {
            let left = usize_string(len0 - 1);
            let right = usize_string(
                if lst.list.len() == 0 {
                    0
                } else {
                    lst.list.len() - 1
                },
            );
            let mut given = left;
            given.append(" and ");
            given.append(right.as_str());
            return Err(
                error_text(
                    ErrKind::ContractViolation,
                    "map",
                    "all lists must have same size",
                    given.as_str(),
                ),
            );
        }
        if !(i < len0) {
            let empty_args: Vec<Data> = Vec::new();
            proof {
                assert(dv_seq(empty_args@) =~= Seq::<DV>::empty());
            }
            return Ok(empty_args);
        }
        match Self::map_args(data, i, j + 1, len0) {
            Ok(rest) => {
                let ghost restv = rest@;
                let mut out: Vec<Data> = Vec::new();
                out.push(lst.list[i].clone());
                let mut tail = rest;
                out.append(&mut tail);
                proof {
                    lemma_dv_seq(out@);
                    lemma_dv_seq(restv);
                    let target = seq![dv(data.list@[j as int]).items[i as int]] + dv_seq(
                        restv,
                    );
                    assert forall|k: int| 0 <= k < out@.len() implies #[trigger] dv_seq(
                        out@,
                    )[k] == target[k] by {
                        assert(dv_seq(out@)[k] == dv(out@[k]));
                        if k >= 1 {
                            assert(out@[k] == restv[k - 1]);
                            assert(dv_seq(restv)[k - 1] == dv(restv[k - 1]));
                        }
                    }
                    assert(dv_seq(out@) =~= target);
                }
                Ok(out)
            },
            Err(e) => Err(e),
        }
    }
}


impl Environment {
    fn map_iter(&mut self, data: &Data, i: usize, acc: Vec<Data>, len0: usize, fuel: u64)
        -> (res: Data)
        requires
            old(self).wf(),
            fuel >= 1,
            len0 >= 1,
            i < len0,
            data.list@.len() >= 3,
        ensures
            final(self).wf(),
            final(self).em().frames.len() >= old(self).em().frames.len(),
            final(self).em().cur == old(self).em().cur,
            ({
                let stepped = spec_map_iter(
                    old(self).em(),
                    data@,
                    i as int,
                    dv_seq(acc@),
                    len0 as int,
                    fuel as nat,
                );
                final(self).em() == stepped.0 && res@ == stepped.1
            }),
        decreases fuel, 1int, len0 - i,
    {
        proof {
            lemma_dv_seq(data.list@);
        }
        if i + 1 >= len0 {
            let mut acc = acc;
            let ghost pre = acc@;
            acc.push(null_sym());
            let ghost itemsv = acc@;
            let out = Data::from_list(acc);
            proof {
                lemma_dv_seq(itemsv);
                lemma_dv_seq(pre);
                assert forall|k: int| 0 <= k < itemsv.len() implies #[trigger] dv_seq(
                    itemsv,
                )[k] == dv_seq(pre).push(null_dv())[k] by {
                    assert(dv_seq(itemsv)[k] == dv(itemsv[k]));
                    if k < pre.len() {
                        assert(itemsv[k] == pre[k]);
                        assert(dv_seq(pre)[k] == dv(pre[k]));
                    }
                }
                assert(dv_seq(itemsv) =~= dv_seq(pre).push(null_dv()));
            }
            return out;
        }
        match Self::map_args(data, i, 2, len0) {
            Err(e) => {
                self.push_output(e.as_str());
                invalid_data()
            },
            Ok(argvals) => {
                let ghost argsv = argvals@;
                let mut items: Vec<Data> = Vec::new();
                items.push(data.list[1].clone());
                let mut tail = argvals;
                items.append(&mut tail);
                let ghost itemsv = items@;
                let to_eval = Data::from_list(items);
                proof {
                    lemma_dv_seq(itemsv);
                    lemma_dv_seq(argsv);
                    let target = seq![dv(data.list@[1])] + dv_seq(argsv);
                    assert forall|k: int| 0 <= k < itemsv.len() implies #[trigger] dv_seq(
                        itemsv,
                    )[k] == target[k] by {
                        assert(dv_seq(itemsv)[k] == dv(itemsv[k]));
                        if k >= 1 {
                            assert(itemsv[k] == argsv[k - 1]);
                            assert(dv_seq(argsv)[k - 1] == dv(argsv[k - 1]));
                        }
                    }
                    assert(dv_seq(itemsv) =~= target);
                }
                let r = self.eval_fuel(&to_eval, fuel - 1);
                let mut acc = acc;
                let ghost pre = acc@;
                acc.push(r);
                proof {
                    lemma_dv_seq(acc@);
                    lemma_dv_seq(pre);
                    assert forall|k: int| 0 <= k < acc@.len() implies #[trigger] dv_seq(
                        acc@,
                    )[k] == dv_seq(pre).push(dv(acc@.last()))[k] by {
                        assert(dv_seq(acc@)[k] == dv(acc@[k]));
                        if k < pre.len() {
                            assert(acc@[k] == pre[k]);
                            assert(dv_seq(pre)[k] == dv(pre[k]));
                        }
                    }
                    assert(dv_seq(acc@) =~= dv_seq(pre).push(dv(acc@.last())));
                }
                self.map_iter(data, i + 1, acc, len0, fuel)
            },
        }
    }

    fn eval_map(&mut self, data: &Data, fuel: u64) -> (res: Data)
        requires
            old(self).wf(),
            fuel >= 1,
            data.list@.len() >= 1,
        ensures
            final(self).wf(),
            final(self).em().frames.len() >= old(self).em().frames.len(),
            final(self).em().cur == old(self).em().cur,
            ({
                let stepped = spec_eval_map(old(self).em(), data@, fuel as nat);
                final(self).em() == stepped.0 && res@ == stepped.1
            }),
        decreases fuel, 2int, 0int,
    {
        proof {
            lemma_dv_seq(data.list@);
        }
        let n = data.list.len();
        if n < 3 {
            let count = usize_string(n - 1);
            let d = error_text(ErrKind::ArityMismatch, "map", "at least 2", count.as_str());
            self.push_output(d.as_str());
            return invalid_data();
        }
        let proc_value = self.eval_fuel(&data.list[1], fuel - 1);
        if !(proc_value.data_type == DataType::Procedure || proc_value.data_type
            == DataType::Lambda) {
            let shown = proc_value.render(0);
            let d = error_text(
                ErrKind::ContractViolation,
                "map",
                "a procedure that can be applied to arguments",
                shown.as_str(),
            );
            self.push_output(d.as_str());
            return invalid_data();
        }
        proof {
            lemma_dv_seq(data.list@[2].list@);
        }
        if !is_list_data(&data.list[2]) {
            let shown = data.list[2].render(0);
            let d = error_text(ErrKind::ContractViolation, "map", "list?", shown.as_str());
            self.push_output(d.as_str());
            return invalid_data();
        }
        let len0 = data.list[2].list.len();
        if len0 == 0 {
            return null_sym();
        }
        let start: Vec<Data> = Vec::new();
        proof {
            assert(dv_seq(start@) =~= Seq::<DV>::empty());
        }
        self.map_iter(data, 0, start, len0, fuel)
    }

    fn eval_args(&mut self, data: &Data, i: usize, acc: Vec<Data>, fuel: u64) -> (res: (
        Vec<Data>,
        bool,
    ))
        requires
            old(self).wf(),
            fuel >= 1,
            i >= 1,
        ensures
            final(self).wf(),
            final(self).em().frames.len() >= old(self).em().frames.len(),
            final(self).em().cur == old(self).em().cur,
            ({
                let stepped = spec_eval_args(
                    old(self).em(),
                    data@,
                    i as int,
                    dv_seq(acc@),
                    fuel as nat,
                );
                final(self).em() == stepped.0 && res.1 == stepped.2 && dv_seq(res.0@)
                    == stepped.1
            }),
        decreases fuel, 1int, data.list@.len() - i,
    {
        proof {
            lemma_dv_seq(data.list@);
        }
        if i >= data.list.len() {
            return (acc, true);
        }
        let r = self.eval_fuel(&data.list[i], fuel - 1);
        if is_invalid_data(&r) {
            (acc, false)
        } else {
            let mut acc = acc;
            let ghost pre = acc@;
            acc.push(r);
            proof {
                lemma_dv_seq(acc@);
                lemma_dv_seq(pre);
                assert forall|k: int| 0 <= k < acc@.len() implies #[trigger] dv_seq(acc@)[k]
                    == dv_seq(pre).push(dv(acc@.last()))[k] by {
                    assert(dv_seq(acc@)[k] == dv(acc@[k]));
                    if k < pre.len() {
                        assert(acc@[k] == pre[k]);
                        assert(dv_seq(pre)[k] == dv(pre[k]));
                    }
                }
                assert(dv_seq(acc@) =~= dv_seq(pre).push(dv(acc@.last())));
            }
            self.eval_args(data, i + 1, acc, fuel)
        }
    }

    fn eval_body(&mut self, lam: &Data, j: usize, last: Data, fuel: u64) -> (res: Data)
        requires
            old(self).wf(),
            fuel >= 1,
            j >= 2,
        ensures
            final(self).wf(),
            final(self).em().frames.len() >= old(self).em().frames.len(),
            final(self).em().cur == old(self).em().cur,
            ({
                let stepped = spec_body_iter(old(self).em(), lam@, j as int, last@, fuel as nat);
                final(self).em() == stepped.0 && res@ == stepped.1
            }),
        decreases fuel, 0int, lam.list@.len() - j,
    {
        proof {
            lemma_dv_seq(lam.list@);
        }
        if j >= lam.list.len() {
            return last;
        }
        let r = self.eval_fuel(&lam.list[j], fuel - 1);
        if is_invalid_data(&r) {
            r
        } else {
            self.eval_body(lam, j + 1, r, fuel)
        }
    }

    /// Application of an evaluated head to evaluated operands.
    pub fn eval_proc_lambda(&mut self, data: &Data) -> (res: Data)
        requires
            old(self).wf(),
        ensures
            final(self).wf(),
            final(self).em().frames.len() >= old(self).em().frames.len(),
            final(self).em().cur == old(self).em().cur,
            ({
                let stepped = spec_eval_proc_lambda(old(self).em(), data@, EVAL_FUEL as nat);
                final(self).em() == stepped.0 && res@ == stepped.1
            }),
    {
        self.eval_proc_lambda_fuel(data, EVAL_FUEL)
    }

    fn eval_proc_lambda_fuel(&mut self, data: &Data, fuel: u64) -> (res: Data)
        requires
            old(self).wf(),
            fuel >= 1,
        ensures
            final(self).wf(),
            final(self).em().frames.len() >= old(self).em().frames.len(),
            final(self).em().cur == old(self).em().cur,
            ({
                let stepped = spec_eval_proc_lambda(old(self).em(), data@, fuel as nat);
                final(self).em() == stepped.0 && res@ == stepped.1
            }),
        decreases fuel, 2int, 0int,
    {
        proof {
            lemma_empty_text();
            lemma_dv_seq(data.list@);
        }
        if data.list.len() == 0 {
            return invalid_data();
        }
        let proc_value = self.eval_fuel(&data.list[0], fuel - 1);
        if is_invalid_data(&proc_value) {
            return proc_value;
        }
        if !(proc_value.data_type == DataType::Lambda || proc_value.data_type
            == DataType::Procedure) {
            let shown = data.list[0].render(0);
            let d = error_text(ErrKind::NotAProcedure, "application", "", shown.as_str());
            self.push_output(d.as_str());
            return invalid_data();
        }
        let start: Vec<Data> = Vec::new();
        proof {
            assert(dv_seq(start@) =~= Seq::<DV>::empty());
        }
        let walked = self.eval_args(data, 1, start, fuel);
        if !walked.1 {
            return invalid_data();
        }
        let args = walked.0;
        proof {
            lemma_dv_seq(args@);
        }
        if proc_value.data_type == DataType::Lambda {
            proof {
                lemma_dv_seq(proc_value.list@);
            }
            if proc_value.list.len() < 2 {
                return invalid_data();
            }
            let params = &proc_value.list[1].list;
            proof {
                lemma_dv_seq(proc_value.list@[1].list@);
            }
            if params.len() != args.len() {
                let expected = usize_string(params.len());
                let got = usize_string(args.len());
                let d = error_text(
                    ErrKind::ArityMismatch,
                    data.list[0].string.as_str(),
                    expected.as_str(),
                    got.as_str(),
                );
                self.push_output(d.as_str());
                return invalid_data();
            }
            proof {
                assert(params@ == proc_value.list@[1].list@);
                assert(dv_seq(params@) == dv(proc_value).items[1].items);
                assert(dv(proc_value) == spec_eval(
                    old(self).em(),
                    dv(data.list@[0]),
                    (fuel - 1) as nat,
                ).1);
            }
            let ph: usize = match proc_value.scope {
                Some(h) => if h < self.frames.len() {
                    h
                } else {
                    self.current
                },
                None => self.current,
            };
            let mut call_frame = Frame::new(Some(ph));
            let m = params.len();
            let mut k: usize = 0;
            while k < m
                invariant
                    k <= m,
                    m == params@.len() == args@.len(),
                    call_frame.fwf(),
                    call_frame.parent == Some(ph),
                    call_frame.fm().map == bind_map(
                        dv_seq(params@).take(k as int),
                        dv_seq(args@).take(k as int),
                    ),
                decreases m - k,
            {
                proof {
                    lemma_dv_seq(params@);
                    lemma_dv_seq(args@);
                    assert(dv_seq(params@).take(k + 1).drop_last() =~= dv_seq(params@).take(
                        k as int,
                    ));
                    assert(dv_seq(args@).take(k + 1).drop_last() =~= dv_seq(args@).take(
                        k as int,
                    ));
                    assert(dv_seq(params@).take(k + 1).last() == dv(params@[k as int]));
                    assert(dv_seq(args@).take(k + 1).last() == dv(args@[k as int]));
                }
                call_frame.put(params[k].string.clone(), args[k].clone());
                k += 1;
            }
            let ghost env3 = self.em();
            proof {
                lemma_dv_seq(params@);
                lemma_dv_seq(args@);
                assert(dv_seq(params@).take(params@.len() as int) =~= dv_seq(params@));
                assert(dv_seq(args@).take(args@.len() as int) =~= dv_seq(args@));
            }
            self.frames.push(call_frame);
            let saved = self.current;
            self.current = self.frames.len() - 1;
            proof {
                let spec_child = EnvM {
                    frames: env3.frames.push(
                        FrameM {
                            map: bind_map(dv(proc_value).items[1].items, dv_seq(args@)),
                            parent: Some(ph as int),
                        },
                    ),
                    cur: env3.frames.len() as int,
                    out: env3.out,
                };
                assert(self.em().frames =~= spec_child.frames);
                assert(self.em() == spec_child);
            }
            let body_value = self.eval_body(&proc_value, 2, invalid_data(), fuel);
            self.current = saved;
            proof {
                assert(final(self).wf()) by {
                    assert((saved as int) < self.frames@.len());
                }
            }
            body_value
        } else {
            match proc_value.native {
                Some(op) => {
                    let applied = apply_native(op, &args);
                    self.push_output(applied.1.as_str());
                    applied.0
                },
                None => null_sym(),
            }
        }
    }
}

} // verus!
