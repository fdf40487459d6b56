use crate::graph::Graph;
use crate::handle::{Handle, TypeTag};
use vstd::prelude::*;

verus! {

/// Keeps the handle when its value is of type `ty`.
#[derive(Clone, Copy, Debug)]
pub struct Node {
    pub ty: TypeTag,
}

/// A unit marker when the handle's value is of type `ty`.
#[derive(Clone, Copy, Debug)]
pub struct Is {
    pub ty: TypeTag,
}

/// A unit marker when the handle's value is not of type `ty`.
#[derive(Clone, Copy, Debug)]
pub struct IsNot {
    pub ty: TypeTag,
}

/// At most the first `count` outputs of `transform`.
#[derive(Debug)]
pub struct Limit {
    pub count: usize,
    pub transform: Box<Transform>,
}

/// For each handle that `transform` puts out, every result of `fetch`
/// rooted at that handle.
#[derive(Debug)]
pub struct Query {
    pub transform: Box<Transform>,
    pub fetch: Box<Fetch>,
}

/// `transform` applied to each neighbour of the root under `category`.
#[derive(Debug)]
pub struct Related {
    pub category: TypeTag,
    pub transform: Box<Transform>,
}

/// `transform` applied to each handle of the breadth-first traversal from
/// the root under `category`.
#[derive(Debug)]
pub struct Traverse {
    pub category: TypeTag,
    pub transform: Box<Transform>,
}

/// A step from one handle to zero or more outputs.
#[derive(Debug)]
pub enum Transform {
    /// The handle itself.
    Index,
    Node(Node),
    Is(Is),
    IsNot(IsNot),
    /// The handle as one to read a value of type `ty` from, when it is one.
    Read(TypeTag),
    /// The handle as one to write a value of type `ty` to, when it is one.
    Write(TypeTag),
    /// Always one output: the handle to read from, or none.
    MaybeRead(TypeTag),
    /// Always one output: the handle to write to, or none.
    MaybeWrite(TypeTag),
    Limit(Limit),
    Query(Query),
}

/// A sequence of results rooted at one handle.
#[derive(Debug)]
pub enum Fetch {
    /// One unit value.
    Unit,
    /// The root handle, once.
    Index,
    Related(Related),
    Traverse(Traverse),
    /// Both fetches advanced together: the n-th result pairs their n-th
    /// results, and the pair ends when either ends.
    Pair(Box<Fetch>, Box<Fetch>),
}

/// One result of a query.
#[derive(Debug, PartialEq, Eq)]
pub enum Value {
    Unit,
    Index(Handle),
    Read(Handle),
    Write(Handle),
    MaybeRead(Option<Handle>),
    MaybeWrite(Option<Handle>),
    Pair(Box<Value>, Box<Value>),
}

/// Whether `h` names a stored value of the type with hash `ty`.
pub open spec fn is_of(g: &Graph, h: Handle, ty: u64) -> bool {
    h.type_hash == ty && g.nodes().contains(h)
}

/// The handles among `vs`, in order.
pub open spec fn handles_of(vs: Seq<Value>) -> Seq<Handle>
    decreases vs.len(),
{
    if vs.len() == 0 {
        Seq::empty()
    } else {
        handles_of(vs.drop_last()) + match vs.last() {
            Value::Index(h) => seq![h],
            _ => Seq::empty(),
        }
    }
}

/// The first `n` of `s`, or all of `s` where it is shorter.
pub open spec fn first_n(s: Seq<Value>, n: nat) -> Seq<Value> {
    if n < s.len() {
        s.take(n as int)
    } else {
        s
    }
}

/// `a` and `b` paired position by position, as long as the shorter one.
pub open spec fn zip(a: Seq<Value>, b: Seq<Value>) -> Seq<Value> {
    Seq::new(
        if a.len() < b.len() { a.len() } else { b.len() },
        |k: int| Value::Pair(Box::new(a[k]), Box::new(b[k])),
    )
}

/// The outputs of `t` for the handle `h`.
pub open spec fn transform_spec(g: &Graph, t: Transform, h: Handle) -> Seq<Value>
    decreases t, 0nat,
{
    match t {
        Transform::Index => seq![Value::Index(h)],
        Transform::Node(n) => if is_of(g, h, n.ty@) { seq![Value::Index(h)] } else { Seq::empty() },
        Transform::Is(n) => if is_of(g, h, n.ty@) { seq![Value::Unit] } else { Seq::empty() },
        Transform::IsNot(n) => if !is_of(g, h, n.ty@) { seq![Value::Unit] } else { Seq::empty() },
        Transform::Read(ty) => if is_of(g, h, ty@) { seq![Value::Read(h)] } else { Seq::empty() },
        Transform::Write(ty) => if is_of(g, h, ty@) { seq![Value::Write(h)] } else { Seq::empty() },
        Transform::MaybeRead(ty) => seq![Value::MaybeRead(if is_of(g, h, ty@) { Some(h) } else { None })],
        Transform::MaybeWrite(ty) => seq![Value::MaybeWrite(if is_of(g, h, ty@) { Some(h) } else { None })],
        Transform::Limit(l) => first_n(transform_spec(g, *l.transform, h), l.count as nat),
        Transform::Query(q) => fetch_each_spec(g, *q.fetch, handles_of(transform_spec(g, *q.transform, h))),
    }
}

/// The outputs of `t` for each handle of `hs`, one after another.
pub open spec fn transform_each_spec(g: &Graph, t: Transform, hs: Seq<Handle>) -> Seq<Value>
    decreases t, hs.len() + 1,
{
    if hs.len() == 0 {
        Seq::empty()
    } else {
        transform_each_spec(g, t, hs.drop_last()) + transform_spec(g, t, hs.last())
    }
}

/// The results of `f` rooted at `root`.
pub open spec fn fetch_spec(g: &Graph, f: Fetch, root: Handle) -> Seq<Value>
    decreases f, 0nat,
{
    match f {
        Fetch::Unit => seq![Value::Unit],
        Fetch::Index => seq![Value::Index(root)],
        Fetch::Related(r) => transform_each_spec(g, *r.transform, g.out_seq(r.category@, root)),
        Fetch::Traverse(r) => transform_each_spec(g, *r.transform, g.traversal(Some(r.category@), root)),
        Fetch::Pair(a, b) => zip(fetch_spec(g, *a, root), fetch_spec(g, *b, root)),
    }
}

/// The results of `f` rooted at each handle of `hs`, one after another.
pub open spec fn fetch_each_spec(g: &Graph, f: Fetch, hs: Seq<Handle>) -> Seq<Value>
    decreases f, hs.len() + 1,
{
    if hs.len() == 0 {
        Seq::empty()
    } else {
        fetch_each_spec(g, f, hs.drop_last()) + fetch_spec(g, f, hs.last())
    }
}

/// A value equal to `v`.
fn copy_value(v: &Value) -> (r: Value)
    ensures
        r == *v,
    decreases v,
{
    match v {
        Value::Unit => Value::Unit,
        Value::Index(h) => Value::Index(*h),
        Value::Read(h) => Value::Read(*h),
        Value::Write(h) => Value::Write(*h),
        Value::MaybeRead(h) => Value::MaybeRead(*h),
        Value::MaybeWrite(h) => Value::MaybeWrite(*h),
        Value::Pair(a, b) => Value::Pair(Box::new(copy_value(&**a)), Box::new(copy_value(&**b))),
    }
}

/// The handles among `vs`, in order.
fn handles_in(vs: &Vec<Value>) -> (r: Vec<Handle>)
    ensures
        r@ == handles_of(vs@),
{
    let mut r: Vec<Handle> = Vec::new();
    let mut i: usize = 0;
    while i < vs.len()
        invariant
            i <= vs@.len(),
            r@ == handles_of(vs@.subrange(0, i as int)),
        decreases vs@.len() - i,
    {
        proof {
            assert(vs@.subrange(0, i + 1).drop_last() =~= vs@.subrange(0, i as int));
            assert(vs@.subrange(0, i + 1).last() == vs@[i as int]);
        }
        match &vs[i] {
            Value::Index(h) => {
                let ghost r0 = r@;
                r.push(*h);
                assert(r@ =~= r0 + seq![*h]);
            },
            _ => {
                assert(r@ =~= r@ + Seq::<Handle>::empty());
            },
        }
        i = i + 1;
    }
    assert(vs@.subrange(0, i as int) =~= vs@);
    r
}

/// `a` and `b` paired position by position, as long as the shorter one.
fn zip_values(a: &Vec<Value>, b: &Vec<Value>) -> (r: Vec<Value>)
    ensures
        r@ == zip(a@, b@),
{
    let n: usize = if a.len() < b.len() { a.len() } else { b.len() };
    let mut r: Vec<Value> = Vec::new();
    let mut i: usize = 0;
    while i < n
        invariant
            n == (if a@.len() < b@.len() { a@.len() } else { b@.len() }),
            i <= n,
            r@.len() == i,
            forall|k: int| 0 <= k < i ==> r@[k] == Value::Pair(Box::new(a@[k]), Box::new(b@[k])),
        decreases n - i,
    {
        r.push(Value::Pair(Box::new(copy_value(&a[i])), Box::new(copy_value(&b[i]))));
        i = i + 1;
    }
    assert(r@ =~= zip(a@, b@));
    r
}

impl Transform {
    /// The outputs of this transform for the handle `input`.
    pub fn transform(&self, graph: &Graph, input: Handle) -> (r: Vec<Value>)
        requires
            graph.wf(),
        ensures
            r@ == transform_spec(graph, *self, input),
        decreases self, 0nat,
    {
        let mut r: Vec<Value> = Vec::new();
        match self {
            Transform::Index => {
                r.push(Value::Index(input));
            },
            Transform::Node(n) => {
                if graph.is(input, n.ty) {
                    r.push(Value::Index(input));
                }
            },
            Transform::Is(n) => {
                if graph.is(input, n.ty) {
                    r.push(Value::Unit);
                }
            },
            Transform::IsNot(n) => {
                if !graph.is(input, n.ty) {
                    r.push(Value::Unit);
                }
            },
            Transform::Read(ty) => {
                if graph.is(input, *ty) {
                    r.push(Value::Read(input));
                }
            },
            Transform::Write(ty) => {
                if graph.is(input, *ty) {
                    r.push(Value::Write(input));
                }
            },
            Transform::MaybeRead(ty) => {
                let h = if graph.is(input, *ty) { Some(input) } else { None };
                r.push(Value::MaybeRead(h));
            },
            Transform::MaybeWrite(ty) => {
                let h = if graph.is(input, *ty) { Some(input) } else { None };
                r.push(Value::MaybeWrite(h));
            },
            Transform::Limit(l) => {
                r = l.transform.transform(graph, input);
                if l.count < r.len() {
                    r.truncate(l.count);
                    assert(r@ =~= transform_spec(graph, *l.transform, input).take(l.count as int));
                }
            },
            Transform::Query(q) => {
                let outputs = q.transform.transform(graph, input);
                let roots = handles_in(&outputs);
                r = q.fetch.fetch_each(graph, &roots);
            },
        }
        proof {
            match *self {
                Transform::Limit(_) => {},
                Transform::Query(_) => {},
                _ => {
                    assert(r@ =~= transform_spec(graph, *self, input));
                },
            }
        }
        r
    }

    /// The outputs of this transform for each handle of `inputs`, one after
    /// another.
    pub fn transform_each(&self, graph: &Graph, inputs: &Vec<Handle>) -> (r: Vec<Value>)
        requires
            graph.wf(),
        ensures
            r@ == transform_each_spec(graph, *self, inputs@),
        decreases self, inputs@.len() + 1,
    {
        let mut r: Vec<Value> = Vec::new();
        let mut i: usize = 0;
        while i < inputs.len()
            invariant
                graph.wf(),
                i <= inputs@.len(),
                r@ == transform_each_spec(graph, *self, inputs@.subrange(0, i as int)),
            decreases inputs@.len() - i,
        {
            proof {
                assert(inputs@.subrange(0, i + 1).drop_last() =~= inputs@.subrange(0, i as int));
                assert(inputs@.subrange(0, i + 1).last() == inputs@[i as int]);
            }
            let mut more = self.transform(graph, inputs[i]);
            r.append(&mut more);
            i = i + 1;
        }
        assert(inputs@.subrange(0, i as int) =~= inputs@);
        r
    }
}

impl Fetch {
    /// The results of this fetch rooted at `root`.
    pub fn fetch(&self, graph: &Graph, root: Handle) -> (r: Vec<Value>)
        requires
            graph.wf(),
        ensures
            r@ == fetch_spec(graph, *self, root),
        decreases self, 0nat,
    {
        match self {
            Fetch::Unit => {
                let mut r: Vec<Value> = Vec::new();
                r.push(Value::Unit);
                assert(r@ =~= seq![Value::Unit]);
                r
            },
            Fetch::Index => {
                let mut r: Vec<Value> = Vec::new();
                r.push(Value::Index(root));
                assert(r@ =~= seq![Value::Index(root)]);
                r
            },
            Fetch::Related(rel) => {
                let roots = graph.relations_outgoing(root, rel.category);
                rel.transform.transform_each(graph, &roots)
            },
            Fetch::Traverse(rel) => {
                let roots = graph.relations_traverse(root, rel.category);
                rel.transform.transform_each(graph, &roots)
            },
            Fetch::Pair(a, b) => {
                let x = a.fetch(graph, root);
                let y = b.fetch(graph, root);
                zip_values(&x, &y)
            },
        }
    }

    /// The results of this fetch rooted at each handle of `roots`, one after
    /// another.
    pub fn fetch_each(&self, graph: &Graph, roots: &Vec<Handle>) -> (r: Vec<Value>)
        requires
            graph.wf(),
        ensures
            r@ == fetch_each_spec(graph, *self, roots@),
        decreases self, roots@.len() + 1,
    {
        let mut r: Vec<Value> = Vec::new();
        let mut i: usize = 0;
        while i < roots.len()
            invariant
                graph.wf(),
                i <= roots@.len(),
                r@ == fetch_each_spec(graph, *self, roots@.subrange(0, i as int)),
            decreases roots@.len() - i,
        {
            proof {
                assert(roots@.subrange(0, i + 1).drop_last() =~= roots@.subrange(0, i as int));
                assert(roots@.subrange(0, i + 1).last() == roots@[i as int]);
            }
            let mut more = self.fetch(graph, roots[i]);
            r.append(&mut more);
            i = i + 1;
        }
        assert(roots@.subrange(0, i as int) =~= roots@);
        r
    }
}

/// The results of a query, handed out one at a time.
pub struct QueryIter {
    values: Vec<Value>,
    position: usize,
}

impl QueryIter {
    /// The results not handed out yet.
    pub closed spec fn rest(&self) -> Seq<Value> {
        self.values@.subrange(self.position as int, self.values@.len() as int)
    }

    pub closed spec fn wf(&self) -> bool {
        self.position <= self.values@.len()
    }

    /// The results of `fetch` rooted at `index`, none handed out yet.
    pub fn new(graph: &Graph, index: Handle, fetch: &Fetch) -> (r: QueryIter)
        requires
            graph.wf(),
        ensures
            r.wf(),
            r.rest() == fetch_spec(graph, *fetch, index),
    {
        let values = fetch.fetch(graph, index);
        let r = QueryIter { values, position: 0 };
        assert(r.rest() =~= values@);
        r
    }

    /// The next result, or `None` once all were handed out.
    pub fn next(&mut self) -> (r: Option<Value>)
        requires
            old(self).wf(),
        ensures
            final(self).wf(),
            old(self).rest().len() == 0 ==> r is None && final(self).rest() == old(self).rest(),
            old(self).rest().len() > 0 ==> r == Some(old(self).rest()[0]) && final(self).rest() == old(self).rest().drop_first(),
    {
        if self.position < self.values.len() {
            let v = copy_value(&self.values[self.position]);
            self.position = self.position + 1;
            assert(self.rest() =~= old(self).rest().drop_first());
            Some(v)
        } else {
            None
        }
    }
}

impl Graph {
    /// Runs `fetch` rooted at `index`.
    pub fn query(&self, index: Handle, fetch: &Fetch) -> (r: QueryIter)
        requires
            self.wf(),
        ensures
            r.wf(),
            r.rest() == fetch_spec(self, *fetch, index),
    {
        QueryIter::new(self, index, fetch)
    }
}

/// Pairing two fetches zips their results: there are as many pairs as the
/// shorter of the two has results, and the n-th pair holds the n-th result
/// of each.
pub proof fn lemma_pair_zips(g: &Graph, a: Fetch, b: Fetch, root: Handle)
    ensures
        ({
            let x = fetch_spec(g, a, root);
            let y = fetch_spec(g, b, root);
            let r = fetch_spec(g, Fetch::Pair(Box::new(a), Box::new(b)), root);
            &&& r.len() == if x.len() < y.len() { x.len() } else { y.len() }
            &&& forall|k: int| 0 <= k < r.len() ==> #[trigger] r[k] == Value::Pair(Box::new(x[k]), Box::new(y[k]))
        }),
{
}

/// A limit never puts out more than its count, and what it puts out is the
/// start of what the inner transform puts out.
pub proof fn lemma_limit_bounded(g: &Graph, count: usize, t: Transform, h: Handle)
    ensures
        ({
            let inner = transform_spec(g, t, h);
            let r = transform_spec(g, Transform::Limit(Limit { count, transform: Box::new(t) }), h);
            &&& r.len() <= count
            &&& r.len() <= inner.len()
            &&& r == inner.take(r.len() as int)
        }),
{
    let inner = transform_spec(g, t, h);
    let r = transform_spec(g, Transform::Limit(Limit { count, transform: Box::new(t) }), h);
    if count < inner.len() {
    } else {
        assert(inner.take(inner.len() as int) =~= inner);
    }
}

} // verus!
