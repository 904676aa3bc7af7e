//! Environments of the tree-walking interpreter: the variables of each
//! scope and the scope it is nested in. All environments live in one store
//! and are named by their index there; an environment's enclosing one was
//! made before it, so following `enclosing` always ends.
use vstd::prelude::*;

verus! {

/// The model of one environment: its variables, and the environment it is
/// nested in.
pub struct FrameView<V> {
    pub values: Map<Seq<char>, V>,
    pub enclosing: Option<nat>,
}

/// The variables of one environment, as a map: later entries for a name
/// replace earlier ones.
pub open spec fn entries_view<V>(es: Seq<(String, V)>) -> Map<Seq<char>, V>
    decreases es.len(),
{
    if es.len() == 0 {
        Map::empty()
    } else {
        entries_view(es.drop_last()).insert(es.last().0@, es.last().1)
    }
}

/// One environment: its variables and the environment it is nested in.
pub struct Frame<V> {
    pub values: Vec<(String, V)>,
    pub enclosing: Option<usize>,
}

/// The store of all environments; environment 0 is the global one.
pub struct Environment<V> {
    frames: Vec<Frame<V>>,
}

pub open spec fn frame_view<V>(f: Frame<V>) -> FrameView<V> {
    FrameView {
        values: entries_view(f.values@),
        enclosing: match f.enclosing {
            Some(e) => Some(e as nat),
            None => None,
        },
    }
}

/// Every environment's enclosing one comes before it in the store.
pub open spec fn frames_wf<V>(fs: Seq<FrameView<V>>) -> bool {
    forall|i: int| 0 <= i < fs.len() ==> ((#[trigger] fs[i]).enclosing matches Some(e) ==> e < i)
}

/// The binding a variable use refers to: `depth` environments out from
/// `env` when the resolver recorded a depth, else the global one, looked up
/// from the first environment.
pub open spec fn resolved_value<V>(fs: Seq<FrameView<V>>, env: nat, depth: Option<usize>, k: Seq<char>) -> Option<V> {
    match depth {
        Some(d) => match ancestor(fs, env, d as nat) {
            Some(a) => if fs[a as int].values.contains_key(k) {
                Some(fs[a as int].values[k])
            } else {
                None
            },
            None => None,
        },
        None => lookup(fs, 0, k),
    }
}

/// The value of `k` seen from environment `env`: its own, or else the one
/// its enclosing environment sees.
pub open spec fn lookup<V>(fs: Seq<FrameView<V>>, env: nat, k: Seq<char>) -> Option<V>
    decreases env,
{
    if env >= fs.len() {
        None
    } else if fs[env as int].values.contains_key(k) {
        Some(fs[env as int].values[k])
    } else {
        match fs[env as int].enclosing {
            Some(e) => if e < env {
                lookup(fs, e, k)
            } else {
                None
            },
            None => None,
        }
    }
}

/// The environment `distance` steps out from `env`, if the chain is that
/// long.
pub open spec fn ancestor<V>(fs: Seq<FrameView<V>>, env: nat, distance: nat) -> Option<nat>
    decreases distance,
{
    if env >= fs.len() {
        None
    } else if distance == 0 {
        Some(env)
    } else {
        match fs[env as int].enclosing {
            Some(e) => ancestor(fs, e, (distance - 1) as nat),
            None => None,
        }
    }
}

/// The nearest environment from `env` outwards that holds `k`.
pub open spec fn holder<V>(fs: Seq<FrameView<V>>, env: nat, k: Seq<char>) -> Option<nat>
    decreases env,
{
    if env >= fs.len() {
        None
    } else if fs[env as int].values.contains_key(k) {
        Some(env)
    } else {
        match fs[env as int].enclosing {
            Some(e) => if e < env {
                holder(fs, e, k)
            } else {
                None
            },
            None => None,
        }
    }
}

/// The holder of a name is an environment that holds it.
pub proof fn lemma_holder<V>(fs: Seq<FrameView<V>>, env: nat, k: Seq<char>)
    ensures
        holder(fs, env, k) matches Some(h) ==> h < fs.len() && fs[h as int].values.contains_key(k),
    decreases env,
{
    if env < fs.len() && !fs[env as int].values.contains_key(k) {
        if let Some(e) = fs[env as int].enclosing {
            if e < env {
                lemma_holder(fs, e, k);
            }
        }
    }
}

/// Setting `k` to `v` in environment `env`.
pub open spec fn set_in<V>(fs: Seq<FrameView<V>>, env: nat, k: Seq<char>, v: V) -> Seq<FrameView<V>> {
    fs.update(env as int, FrameView { values: fs[env as int].values.insert(k, v), ..fs[env as int] })
}

impl<V> View for Environment<V> {
    type V = Seq<FrameView<V>>;

    closed spec fn view(&self) -> Seq<FrameView<V>> {
        self.frames@.map_values(|f: Frame<V>| frame_view(f))
    }
}

/// Looks `k` up among one environment's variables: the index of its last
/// entry.
pub(crate) fn find_entry<V>(es: &Vec<(String, V)>, k: &String) -> (r: Option<usize>)
    ensures
        match r {
            Some(j) => j < es@.len() && es@[j as int].0@ == k@ && entries_view(es@).contains_key(k@)
                && entries_view(es@)[k@] == es@[j as int].1 && (forall|m: int|
                j < m < es@.len() ==> #[trigger] es@[m].0@ != k@),
            None => !entries_view(es@).contains_key(k@),
        },
{
    let mut n: usize = es.len();
    assert(es@.subrange(0, n as int) =~= es@);
    while n > 0
        invariant
            n <= es@.len(),
            forall|m: int| n <= m < es@.len() ==> #[trigger] es@[m].0@ != k@,
            entries_view(es@).contains_key(k@) == entries_view(es@.subrange(0, n as int)).contains_key(k@),
            entries_view(es@.subrange(0, n as int)).contains_key(k@) ==> entries_view(es@)[k@] == entries_view(
                es@.subrange(0, n as int),
            )[k@],
        decreases n,
    {
        let ghost pre = es@.subrange(0, n as int);
        assert(pre.drop_last() =~= es@.subrange(0, n - 1));
        assert(pre.last() == es@[n - 1]);
        if es[n - 1].0 == *k {
            return Some(n - 1);
        }
        n = n - 1;
    }
    assert(es@.subrange(0, 0) =~= Seq::<(String, V)>::empty());
    None
}

/// Replacing the value of the last entry of a name replaces it in the map.
proof fn lemma_entries_update<V>(es: Seq<(String, V)>, j: int, v: V)
    requires
        0 <= j < es.len(),
        forall|m: int| j < m < es.len() ==> #[trigger] es[m].0@ != es[j].0@,
    ensures
        entries_view(es.update(j, (es[j].0, v))) == entries_view(es).insert(es[j].0@, v),
    decreases es.len(),
{
    let k = es[j].0@;
    let es2 = es.update(j, (es[j].0, v));
    if j == es.len() - 1 {
        assert(es2.drop_last() =~= es.drop_last());
        assert(entries_view(es).insert(k, v) =~= entries_view(es.drop_last()).insert(k, v));
    } else {
        lemma_entries_update(es.drop_last(), j, v);
        assert(es2.drop_last() =~= es.drop_last().update(j, (es[j].0, v)));
        assert(es2.last() == es.last());
        assert(es.last().0@ != k);
        assert(entries_view(es2) =~= entries_view(es).insert(k, v));
    }
}

impl<V> Environment<V> {
    /// The store's invariant: every environment's enclosing one comes
    /// before it, and there is a global environment.
    pub closed spec fn wf(&self) -> bool {
        &&& frames_wf(self@)
        &&& self@.len() > 0
    }

    /// A store holding just the (empty) global environment, numbered 0.
    pub fn new() -> (e: Self)
        ensures
            e.wf(),
            e@ == seq![FrameView::<V> { values: Map::empty(), enclosing: None }],
    {
        let mut frames: Vec<Frame<V>> = Vec::new();
        frames.push(Frame { values: Vec::new(), enclosing: None });
        let e = Environment { frames };
        assert(e@ =~= seq![FrameView::<V> { values: Map::empty(), enclosing: None }]);
        e
    }

    /// The number of environments made so far.
    pub fn len(&self) -> (n: usize)
        ensures
            n == self@.len(),
    {
        self.frames.len()
    }

    /// A new, empty environment nested in `enclosing`; the result is its
    /// number.
    pub fn from_enclosing(&mut self, enclosing: usize) -> (e: usize)
        requires
            old(self).wf(),
            enclosing < old(self)@.len(),
        ensures
            final(self).wf(),
            e == old(self)@.len(),
            final(self)@ == old(self)@.push(FrameView { values: Map::empty(), enclosing: Some(enclosing as nat) }),
    {
        let e = self.frames.len();
        self.frames.push(Frame { values: Vec::new(), enclosing: Some(enclosing) });
        assert(self@ =~= old(self)@.push(FrameView { values: Map::empty(), enclosing: Some(enclosing as nat) }));
        e
    }

    /// Defines (or redefines) `k` as `v` in environment `env`.
    pub fn define(&mut self, env: usize, k: String, v: V)
        requires
            old(self).wf(),
            env < old(self)@.len(),
        ensures
            final(self).wf(),
            final(self)@ == set_in(old(self)@, env as nat, k@, v),
    {
        let ghost kv = k@;
        self.frames[env].values.push((k, v));
        proof {
            let es = self.frames@[env as int].values@;
            assert(es.drop_last() =~= old(self).frames@[env as int].values@);
        }
        assert(self@ =~= set_in(old(self)@, env as nat, kv, v));
    }

    /// The value of `k` seen from environment `env`, looking outwards.
    pub fn get(&self, env: usize, k: &String) -> (r: Option<&V>)
        requires
            self.wf(),
        ensures
            match r {
                Some(v) => lookup(self@, env as nat, k@) == Some(*v),
                None => lookup(self@, env as nat, k@) is None,
            },
        decreases env,
    {
        if env >= self.frames.len() {
            return None;
        }
        match find_entry(&self.frames[env].values, k) {
            Some(j) => Some(&self.frames[env].values[j].1),
            None => match self.frames[env].enclosing {
                Some(e) => {
                    assert(self@[env as int] == frame_view(self.frames@[env as int]));
                    self.get(e, k)
                },
                None => None,
            },
        }
    }

    /// The value of `name` in the environment `distance` steps out from
    /// `env`; `None` when the chain is shorter or that environment does not
    /// hold the name.
    pub fn get_at(&self, env: usize, distance: usize, name: &String) -> (r: Option<&V>)
        requires
            self.wf(),
        ensures
            match r {
                Some(v) => ancestor(self@, env as nat, distance as nat) matches Some(a) && self@[a as int].values.contains_key(name@)
                    && self@[a as int].values[name@] == *v,
                None => match ancestor(self@, env as nat, distance as nat) {
                    Some(a) => !self@[a as int].values.contains_key(name@),
                    None => true,
                },
            },
    {
        let a = match self.ancestor(env, distance) {
            Some(a) => a,
            None => return None,
        };
        match find_entry(&self.frames[a].values, name) {
            Some(j) => Some(&self.frames[a].values[j].1),
            None => None,
        }
    }

    /// The value a variable use refers to, from environment `env`: when the
    /// resolver recorded a depth for the use, the binding that many
    /// environments out; otherwise the global one, in the first environment
    /// made (`None` when there is no such binding).
    pub fn lookup_variable(&self, env: usize, depth: Option<usize>, name: &String) -> (r: Option<&V>)
        requires
            self.wf(),
        ensures
            match r {
                Some(v) => resolved_value(self@, env as nat, depth, name@) == Some(*v),
                None => resolved_value(self@, env as nat, depth, name@) is None,
            },
    {
        match depth {
            Some(d) => self.get_at(env, d, name),
            None => self.get(0, name),
        }
    }

    /// The number of the environment `distance` steps out from `env`.
    pub fn ancestor(&self, env: usize, distance: usize) -> (r: Option<usize>)
        requires
            self.wf(),
        ensures
            match r {
                Some(a) => ancestor(self@, env as nat, distance as nat) == Some(a as nat) && a < self@.len(),
                None => ancestor(self@, env as nat, distance as nat) is None,
            },
        decreases distance,
    {
        if env >= self.frames.len() {
            return None;
        }
        if distance == 0 {
            return Some(env);
        }
        assert(self@[env as int] == frame_view(self.frames@[env as int]));
        match self.frames[env].enclosing {
            Some(e) => self.ancestor(e, distance - 1),
            None => None,
        }
    }

    /// Sets the nearest `k` from environment `env` outwards to `v`; `false`
    /// (and nothing changes) when no environment on the way holds `k`.
    pub fn assign(&mut self, env: usize, k: &String, v: V) -> (r: bool)
        requires
            old(self).wf(),
        ensures
            final(self).wf(),
            r == (holder(old(self)@, env as nat, k@) is Some),
            match holder(old(self)@, env as nat, k@) {
                Some(h) => final(self)@ == set_in(old(self)@, h, k@, v),
                None => final(self)@ == old(self)@,
            },
    {
        proof {
            lemma_holder(self@, env as nat, k@);
        }
        match self.holder(env, k) {
            Some(h) => {
                self.set_existing(h, k, v);
                true
            },
            None => false,
        }
    }

    /// Sets `k` to `v` in the environment `dist` steps out from `env`, when
    /// that environment holds `k` (otherwise nothing changes).
    pub fn assign_at(&mut self, env: usize, dist: usize, k: &String, v: V)
        requires
            old(self).wf(),
            ancestor(old(self)@, env as nat, dist as nat) is Some,
        ensures
            final(self).wf(),
            ({
                let a = ancestor(old(self)@, env as nat, dist as nat)->0;
                if old(self)@[a as int].values.contains_key(k@) {
                    final(self)@ == set_in(old(self)@, a, k@, v)
                } else {
                    final(self)@ == old(self)@
                }
            }),
    {
        let a = match self.ancestor(env, dist) {
            Some(a) => a,
            None => return,
        };
        if find_entry(&self.frames[a].values, k).is_some() {
            self.set_existing(a, k, v);
        }
    }

    /// The nearest environment from `env` outwards that holds `k`.
    fn holder(&self, env: usize, k: &String) -> (r: Option<usize>)
        requires
            self.wf(),
        ensures
            match r {
                Some(h) => holder(self@, env as nat, k@) == Some(h as nat) && h < self@.len(),
                None => holder(self@, env as nat, k@) is None,
            },
        decreases env,
    {
        if env >= self.frames.len() {
            return None;
        }
        if find_entry(&self.frames[env].values, k).is_some() {
            return Some(env);
        }
        assert(self@[env as int] == frame_view(self.frames@[env as int]));
        match self.frames[env].enclosing {
            Some(e) => self.holder(e, k),
            None => None,
        }
    }

    /// Replaces the value of `k` in environment `env`, which holds it.
    fn set_existing(&mut self, env: usize, k: &String, v: V)
        requires
            old(self).wf(),
            env < old(self)@.len(),
            old(self)@[env as int].values.contains_key(k@),
        ensures
            final(self).wf(),
            final(self)@ == set_in(old(self)@, env as nat, k@, v),
    {
        assert(old(self)@[env as int] == frame_view(old(self).frames@[env as int]));
        let j = match find_entry(&self.frames[env].values, k) {
            Some(j) => j,
            None => return,
        };
        let key = self.frames[env].values[j].0.clone();
        proof {
            lemma_entries_update(self.frames@[env as int].values@, j as int, v);
        }
        self.frames[env].values.set(j, (key, v));
        assert(self@ =~= set_in(old(self)@, env as nat, k@, v));
    }
}


// ----------------------------- laws -----------------------------

/// Reading a name right after defining it in an environment gives the value
/// defined.
pub proof fn lemma_get_after_define<V>(fs: Seq<FrameView<V>>, env: nat, k: Seq<char>, v: V)
    requires
        env < fs.len(),
    ensures
        lookup(set_in(fs, env, k, v), env, k) == Some(v),
{
}

/// Defining a name leaves what every environment sees of other names as it
/// was.
pub proof fn lemma_define_keeps_others<V>(fs: Seq<FrameView<V>>, env: nat, k: Seq<char>, v: V, at: nat, other: Seq<char>)
    requires
        env < fs.len(),
        other != k,
    ensures
        lookup(set_in(fs, env, k, v), at, other) == lookup(fs, at, other),
    decreases at,
{
    let fs2 = set_in(fs, env, k, v);
    if at < fs.len() {
        assert(fs2[at as int].values.contains_key(other) == fs[at as int].values.contains_key(other));
        if !fs[at as int].values.contains_key(other) {
            if let Some(e) = fs[at as int].enclosing {
                if e < at {
                    lemma_define_keeps_others(fs, env, k, v, e, other);
                }
            }
        }
    }
}

/// A new environment, before anything is defined in it, sees exactly what
/// the environment it is nested in sees.
pub proof fn lemma_new_environment_inherits<V>(fs: Seq<FrameView<V>>, enclosing: nat, k: Seq<char>)
    requires
        enclosing < fs.len(),
    ensures
        lookup(fs.push(FrameView { values: Map::empty(), enclosing: Some(enclosing) }), fs.len(), k)
            == lookup(fs, enclosing, k),
{
    lemma_push_keeps_lookup(fs, FrameView { values: Map::empty(), enclosing: Some(enclosing) }, enclosing, k);
}

/// Adding an environment changes nothing that the existing ones see.
pub proof fn lemma_push_keeps_lookup<V>(fs: Seq<FrameView<V>>, f: FrameView<V>, at: nat, k: Seq<char>)
    requires
        at < fs.len(),
    ensures
        lookup(fs.push(f), at, k) == lookup(fs, at, k),
    decreases at,
{
    let fs2 = fs.push(f);
    assert(fs2[at as int] == fs[at as int]);
    if !fs[at as int].values.contains_key(k) {
        if let Some(e) = fs[at as int].enclosing {
            if e < at {
                lemma_push_keeps_lookup(fs, f, e, k);
            }
        }
    }
}

/// Assigning a name and then reading it from the same environment gives
/// the value assigned: the assignment lands in the very environment the
/// read finds.
pub proof fn lemma_get_after_assign<V>(fs: Seq<FrameView<V>>, env: nat, k: Seq<char>, v: V)
    requires
        holder(fs, env, k) is Some,
    ensures
        lookup(set_in(fs, holder(fs, env, k)->0, k, v), env, k) == Some(v),
    decreases env,
{
    lemma_holder(fs, env, k);
    let h = holder(fs, env, k)->0;
    let fs2 = set_in(fs, h, k, v);
    if env != h {
        assert(env < fs.len());
        assert(!fs[env as int].values.contains_key(k));
        assert(fs2[env as int] == fs[env as int]);
        let e = fs[env as int].enclosing->0;
        assert(holder(fs, e, k) == Some(h));
        lemma_get_after_assign(fs, e, k, v);
    }
}

/// The environment zero steps out is the environment itself.
pub proof fn lemma_ancestor_zero<V>(fs: Seq<FrameView<V>>, env: nat)
    requires
        env < fs.len(),
    ensures
        ancestor(fs, env, 0) == Some(env),
{
}

} // verus!
