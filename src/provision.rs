//! Reading the `NAME=VALUE` lines that an environment setup script prints.
use vstd::prelude::*;

verus! {

/// `i` is the position of the first `=` in `s`.
pub open spec fn is_first_eq(s: Seq<char>, i: int) -> bool {
    &&& 0 <= i < s.len()
    &&& s[i] == '='
    &&& forall|j: int| 0 <= j < i ==> s[j] != '='
}

/// The assignment that one line stands for: the text before the first `=` is
/// the name, everything after it (further `=` included) is the value. A line
/// without `=`, or with nothing before it, assigns nothing.
pub open spec fn assignment_of(line: Seq<char>) -> Option<(Seq<char>, Seq<char>)> {
    if exists|i: int| is_first_eq(line, i) && i > 0 {
        let i = choose|i: int| is_first_eq(line, i) && i > 0;
        Some((line.subrange(0, i), line.subrange(i + 1, line.len() as int)))
    } else {
        None
    }
}

/// A line that ended in `\n` loses one carriage return before it.
pub open spec fn trim_cr(line: Seq<char>) -> Seq<char> {
    if line.len() > 0 && line.last() == '\r' {
        line.drop_last()
    } else {
        line
    }
}

/// Reading `s` from the start: the lines closed by a `\n` so far, and the
/// text of the line still open.
pub open spec fn scan_lines(s: Seq<char>) -> (Seq<Seq<char>>, Seq<char>)
    decreases s.len(),
{
    if s.len() == 0 {
        (Seq::empty(), Seq::empty())
    } else {
        let (done, open) = scan_lines(s.drop_last());
        if s.last() == '\n' {
            (done.push(trim_cr(open)), Seq::empty())
        } else {
            (done, open.push(s.last()))
        }
    }
}

/// The lines of `s`: split at `\n` or `\r\n`; a last line without an ending
/// counts when it is not empty.
pub open spec fn lines_of(s: Seq<char>) -> Seq<Seq<char>> {
    let (done, open) = scan_lines(s);
    if open.len() > 0 {
        done.push(open)
    } else {
        done
    }
}

/// The assignments of `lines`, in order, with the lines that assign nothing
/// left out.
pub open spec fn assignments_in(lines: Seq<Seq<char>>) -> Seq<(Seq<char>, Seq<char>)>
    decreases lines.len(),
{
    if lines.len() == 0 {
        Seq::empty()
    } else {
        let before = assignments_in(lines.drop_last());
        match assignment_of(lines.last()) {
            Some(a) => before.push(a),
            None => before,
        }
    }
}

/// The assignments that a script's output makes, in the order of its lines.
pub open spec fn assignments_of(output: Seq<char>) -> Seq<(Seq<char>, Seq<char>)> {
    assignments_in(lines_of(output))
}

/// An environment after `a` has been applied to `env`, one assignment after
/// the other; a name set again is overwritten.
pub open spec fn apply_all(
    env: Map<Seq<char>, Seq<char>>,
    a: Seq<(Seq<char>, Seq<char>)>,
) -> Map<Seq<char>, Seq<char>>
    decreases a.len(),
{
    if a.len() == 0 {
        env
    } else {
        apply_all(env, a.drop_last()).insert(a.last().0, a.last().1)
    }
}

/// The plain view of a list of name and value pairs.
pub open spec fn pairs_view(v: Seq<(String, String)>) -> Seq<(Seq<char>, Seq<char>)> {
    v.map_values(|p: (String, String)| (p.0@, p.1@))
}

/// Splits one line at its first `=` into a name and a value. Returns `None`
/// for a line without `=` or with an empty name.
pub fn split_assignment(line: &str) -> (r: Option<(String, String)>)
    ensures
        match r {
            Some((name, value)) => assignment_of(line@) == Some((name@, value@)),
            None => assignment_of(line@) is None,
        },
{
    let n = line.unicode_len();
    let mut i: usize = 0;
    while i < n
        invariant
            n == line@.len(),
            i <= n,
            forall|j: int| 0 <= j < i ==> line@[j] != '=',
        decreases n - i,
    {
        if line.get_char(i) == '=' {
            assert(is_first_eq(line@, i as int));
            proof {
                assert forall|k: int| is_first_eq(line@, k) implies k == i by {
                    if k < i {
                    } else if k > i {
                        assert(line@[i as int] != '=');
                    }
                }
            }
            if i == 0 {
                return None;
            }
            let name = String::from_str(line.substring_char(0, i));
            let value = String::from_str(line.substring_char(i + 1, n));
            return Some((name, value));
        }
        i = i + 1;
    }
    None
}

/// Reading one character more extends the scan by that character.
proof fn lemma_scan_step(s: Seq<char>, i: int)
    requires
        0 <= i < s.len(),
    ensures
        s.subrange(0, i + 1).drop_last() == s.subrange(0, i),
        s.subrange(0, i + 1).last() == s[i],
{
    assert(s.subrange(0, i + 1).drop_last() =~= s.subrange(0, i));
}

/// The assignments that a script's output makes, one per line that holds a
/// name and `=`, in the order of the lines. Lines end at `\n` or `\r\n`.
pub fn env_assignments(output: &str) -> (r: Vec<(String, String)>)
    ensures
        pairs_view(r@) == assignments_of(output@),
{
    let n = output.unicode_len();
    let mut r: Vec<(String, String)> = Vec::new();
    let mut start: usize = 0;
    let mut i: usize = 0;
    while i < n
        invariant
            n == output@.len(),
            start <= i <= n,
            scan_lines(output@.subrange(0, i as int)).1 == output@.subrange(start as int, i as int),
            pairs_view(r@) == assignments_in(scan_lines(output@.subrange(0, i as int)).0),
        decreases n - i,
    {
        let ghost prev = output@.subrange(0, i as int);
        let ghost open = output@.subrange(start as int, i as int);
        proof {
            lemma_scan_step(output@, i as int);
        }
        let c = output.get_char(i);
        if c == '\n' {
            let mut end = i;
            if i > start && output.get_char(i - 1) == '\r' {
                end = i - 1;
            }
            let line = output.substring_char(start, end);
            assert(line@ == trim_cr(open)) by {
                if i > start && open.last() == '\r' {
                    assert(open.drop_last() =~= output@.subrange(start as int, end as int));
                }
            }
            let ghost done = scan_lines(prev).0;
            assert(done.push(line@).drop_last() == done);
            match split_assignment(line) {
                Some(a) => {
                    let ghost r0 = r@;
                    r.push(a);
                    assert(pairs_view(r@) =~= pairs_view(r0).push((a.0@, a.1@)));
                }
                None => {}
            }
            start = i + 1;
        } else {
            assert(open.push(c) =~= output@.subrange(start as int, i + 1));
        }
        i = i + 1;
    }
    proof {
        assert(output@.subrange(0, n as int) =~= output@);
    }
    let ghost open = output@.subrange(start as int, n as int);
    if start < n {
        let line = output.substring_char(start, n);
        let ghost done = scan_lines(output@).0;
        assert(done.push(line@).drop_last() == done);
        match split_assignment(line) {
            Some(a) => {
                let ghost r0 = r@;
                r.push(a);
                assert(pairs_view(r@) =~= pairs_view(r0).push((a.0@, a.1@)));
            }
            None => {}
        }
    }
    r
}

/// A line `NAME=VALUE`, where the name is not empty and holds no `=`, sets the
/// name to everything after the first `=`, further `=` signs included.
pub proof fn lemma_split_at_first_eq(name: Seq<char>, value: Seq<char>)
    requires
        name.len() > 0,
        forall|j: int| 0 <= j < name.len() ==> name[j] != '=',
    ensures
        assignment_of(name + seq!['='] + value) == Some((name, value)),
{
    let line = name + seq!['='] + value;
    let k = name.len() as int;
    assert(is_first_eq(line, k));
    let i = choose|i: int| is_first_eq(line, i) && i > 0;
    if i < k {
        assert(line[i] == name[i]);
    } else if i > k {
        assert(line[k] == '=');
    }
    assert(line.subrange(0, k) =~= name);
    assert(line.subrange(k + 1, line.len() as int) =~= value);
}

/// A line without `=` assigns nothing.
pub proof fn lemma_no_eq_no_assignment(line: Seq<char>)
    requires
        forall|j: int| 0 <= j < line.len() ==> line[j] != '=',
    ensures
        assignment_of(line) is None,
{
}

/// Of several assignments to one name, the last one decides its value.
pub proof fn lemma_last_write_wins(
    env: Map<Seq<char>, Seq<char>>,
    a: Seq<(Seq<char>, Seq<char>)>,
    j: int,
)
    requires
        0 <= j < a.len(),
        forall|k: int| j < k < a.len() ==> a[k].0 != a[j].0,
    ensures
        apply_all(env, a).contains_key(a[j].0),
        apply_all(env, a)[a[j].0] == a[j].1,
    decreases a.len(),
{
    if j < a.len() - 1 {
        lemma_last_write_wins(env, a.drop_last(), j);
    }
}

/// No two of `v` assign the same name.
pub open spec fn names_distinct(v: Seq<(Seq<char>, Seq<char>)>) -> bool {
    forall|i: int, j: int| 0 <= i < j < v.len() ==> v[i].0 != v[j].0
}

proof fn lemma_apply_domain(v: Seq<(Seq<char>, Seq<char>)>, k: Seq<char>)
    ensures
        apply_all(Map::empty(), v).contains_key(k) <==> exists|i: int|
            0 <= i < v.len() && (#[trigger] v[i]).0 == k,
    decreases v.len(),
{
    if v.len() > 0 {
        lemma_apply_domain(v.drop_last(), k);
        if apply_all(Map::empty(), v).contains_key(k) && k != v.last().0 {
            let i = choose|i: int| 0 <= i < v.len() - 1 && (#[trigger] v.drop_last()[i]).0 == k;
            assert(v[i].0 == k);
        }
        if exists|i: int| 0 <= i < v.len() && (#[trigger] v[i]).0 == k {
            let i = choose|i: int| 0 <= i < v.len() && (#[trigger] v[i]).0 == k;
            if i < v.len() - 1 {
                assert(v.drop_last()[i].0 == k);
            }
        }
    }
}

proof fn lemma_apply_update(v: Seq<(Seq<char>, Seq<char>)>, k: int, value: Seq<char>)
    requires
        names_distinct(v),
        0 <= k < v.len(),
    ensures
        apply_all(Map::empty(), v.update(k, (v[k].0, value))) == apply_all(Map::empty(), v).insert(
            v[k].0,
            value,
        ),
    decreases v.len(),
{
    let w = v.update(k, (v[k].0, value));
    if k == v.len() - 1 {
        assert(w.drop_last() =~= v.drop_last());
        assert(apply_all(Map::empty(), w) =~= apply_all(Map::empty(), v).insert(v[k].0, value));
    } else {
        assert(w.drop_last() =~= v.drop_last().update(k, (v[k].0, value)));
        lemma_apply_update(v.drop_last(), k, value);
        assert(v.last().0 != v[k].0);
        assert(apply_all(Map::empty(), w) =~= apply_all(Map::empty(), v).insert(v[k].0, value));
    }
}

/// The environment that setup scripts establish: each name with its value.
#[derive(Debug)]
pub struct CapturedEnv {
    vars: Vec<(String, String)>,
}

impl View for CapturedEnv {
    type V = Map<Seq<char>, Seq<char>>;

    closed spec fn view(&self) -> Map<Seq<char>, Seq<char>> {
        apply_all(Map::empty(), pairs_view(self.vars@))
    }
}

impl CapturedEnv {
    /// Each name is held once.
    pub closed spec fn wf(&self) -> bool {
        names_distinct(pairs_view(self.vars@))
    }

    /// An environment with no names.
    pub fn new() -> (r: CapturedEnv)
        ensures
            r.wf(),
            r@ == Map::<Seq<char>, Seq<char>>::empty(),
    {
        let r = CapturedEnv { vars: Vec::new() };
        assert(pairs_view(r.vars@) =~= Seq::empty());
        r
    }

    /// The value of `name`, if it is set.
    pub fn get(&self, name: &str) -> (r: Option<String>)
        requires
            self.wf(),
        ensures
            match r {
                Some(v) => self@.contains_key(name@) && self@[name@] == v@,
                None => !self@.contains_key(name@),
            },
    {
        let key = String::from_str(name);
        let ghost pv = pairs_view(self.vars@);
        let mut i: usize = 0;
        while i < self.vars.len()
            invariant
                i <= self.vars@.len(),
                self.wf(),
                key@ == name@,
                pv == pairs_view(self.vars@),
                forall|j: int| 0 <= j < i ==> pv[j].0 != name@,
            decreases self.vars.len() - i,
        {
            if self.vars[i].0 == key {
                proof {
                    assert(pv[i as int].0 == name@);
                    lemma_last_write_wins(Map::empty(), pv, i as int);
                }
                return Some(self.vars[i].1.clone());
            }
            i = i + 1;
        }
        proof {
            lemma_apply_domain(pv, name@);
        }
        None
    }

    /// Sets `name` to `value`, replacing an earlier value.
    pub fn set(&mut self, name: String, value: String)
        requires
            old(self).wf(),
        ensures
            final(self).wf(),
            final(self)@ == old(self)@.insert(name@, value@),
    {
        let ghost pv = pairs_view(self.vars@);
        let mut i: usize = 0;
        while i < self.vars.len()
            invariant
                i <= self.vars@.len(),
                self.wf(),
                self.vars@ == old(self).vars@,
                pv == pairs_view(self.vars@),
                forall|j: int| 0 <= j < i ==> pv[j].0 != name@,
            decreases self.vars.len() - i,
        {
            if self.vars[i].0 == name {
                assert(pv[i as int].0 == name@);
                let n = self.vars[i].0.clone();
                self.vars.set(i, (n, value));
                proof {
                    assert(pairs_view(self.vars@) =~= pv.update(i as int, (pv[i as int].0, value@)));
                    lemma_apply_update(pv, i as int, value@);
                }
                return;
            }
            i = i + 1;
        }
        proof {
            lemma_apply_domain(pv, name@);
        }
        self.vars.push((name, value));
        assert(pairs_view(self.vars@) =~= pv.push((name@, value@)));
        assert(pairs_view(self.vars@).drop_last() == pv);
    }

    /// Applies every assignment that a setup script printed, in the order of
    /// its lines.
    pub fn apply_output(&mut self, output: &str)
        requires
            old(self).wf(),
        ensures
            final(self).wf(),
            final(self)@ == apply_all(old(self)@, assignments_of(output@)),
    {
        let a = env_assignments(output);
        let ghost start = self@;
        let ghost av = pairs_view(a@);
        let mut i: usize = 0;
        while i < a.len()
            invariant
                i <= a@.len(),
                av == pairs_view(a@),
                self.wf(),
                self@ == apply_all(start, av.subrange(0, i as int)),
            decreases a.len() - i,
        {
            let name = a[i].0.clone();
            let value = a[i].1.clone();
            assert(av.subrange(0, i + 1).drop_last() =~= av.subrange(0, i as int));
            self.set(name, value);
            i = i + 1;
        }
        assert(av.subrange(0, a@.len() as int) =~= av);
    }

    /// The names and their values, each name once.
    pub fn to_pairs(&self) -> (r: Vec<(String, String)>)
        requires
            self.wf(),
        ensures
            names_distinct(pairs_view(r@)),
            apply_all(Map::empty(), pairs_view(r@)) == self@,
    {
        let mut r: Vec<(String, String)> = Vec::new();
        let mut i: usize = 0;
        while i < self.vars.len()
            invariant
                i <= self.vars@.len(),
                pairs_view(r@) == pairs_view(self.vars@).subrange(0, i as int),
            decreases self.vars.len() - i,
        {
            let n = self.vars[i].0.clone();
            let v = self.vars[i].1.clone();
            let ghost r0 = r@;
            r.push((n, v));
            assert(pairs_view(r@) =~= pairs_view(r0).push((n@, v@)));
            assert(pairs_view(self.vars@).subrange(0, i + 1) =~= pairs_view(
                self.vars@,
            ).subrange(0, i as int).push(pairs_view(self.vars@)[i as int]));
            i = i + 1;
        }
        assert(pairs_view(self.vars@).subrange(0, self.vars@.len() as int) =~= pairs_view(
            self.vars@,
        ));
        r
    }
}

proof fn lemma_scan_concat(a: Seq<char>, x: Seq<char>)
    requires
        scan_lines(a).1.len() == 0,
    ensures
        scan_lines(a + x) == (scan_lines(a).0 + scan_lines(x).0, scan_lines(x).1),
    decreases x.len(),
{
    if x.len() == 0 {
        assert(a + x =~= a);
        assert(scan_lines(a).0 + scan_lines(x).0 =~= scan_lines(a).0);
    } else {
        lemma_scan_concat(a, x.drop_last());
        assert((a + x).drop_last() =~= a + x.drop_last());
        let (d, o) = scan_lines(x.drop_last());
        assert(scan_lines(a).0 + d.push(trim_cr(o)) =~= (scan_lines(a).0 + d).push(trim_cr(o)));
    }
}

proof fn lemma_scan_one_line(l: Seq<char>)
    requires
        forall|j: int| 0 <= j < l.len() ==> l[j] != '\n',
    ensures
        scan_lines(l) == (Seq::<Seq<char>>::empty(), l),
        scan_lines(l.push('\n')) == (seq![trim_cr(l)], Seq::<char>::empty()),
    decreases l.len(),
{
    if l.len() > 0 {
        lemma_scan_one_line(l.drop_last());
        assert(l.drop_last().push(l.last()) =~= l);
    } else {
        assert(l =~= Seq::<char>::empty());
    }
    assert(l.push('\n').drop_last() =~= l);
}

proof fn lemma_assignments_concat(x: Seq<Seq<char>>, y: Seq<Seq<char>>)
    ensures
        assignments_in(x + y) == assignments_in(x) + assignments_in(y),
    decreases y.len(),
{
    if y.len() == 0 {
        assert(x + y =~= x);
        assert(assignments_in(x) + assignments_in(y) =~= assignments_in(x));
    } else {
        lemma_assignments_concat(x, y.drop_last());
        assert((x + y).drop_last() =~= x + y.drop_last());
        match assignment_of(y.last()) {
            Some(p) => {
                assert(assignments_in(x) + assignments_in(y.drop_last()).push(p) =~= (
                assignments_in(x) + assignments_in(y.drop_last())).push(p));
            },
            None => {},
        }
    }
}

proof fn lemma_lines_after(a: Seq<char>, x: Seq<char>)
    requires
        scan_lines(a).1.len() == 0,
    ensures
        lines_of(a + x) == scan_lines(a).0 + lines_of(x),
{
    lemma_scan_concat(a, x);
    let (d, o) = scan_lines(x);
    assert(scan_lines(a).0 + d.push(o) =~= (scan_lines(a).0 + d).push(o));
}

/// A line without `=` assigns nothing: taking it out of a script's output
/// leaves the assignments of the output as they were. `a` is the text
/// before the line, empty or ending in a line break, and `b` the text after.
pub proof fn lemma_line_without_eq_ignored(a: Seq<char>, l: Seq<char>, b: Seq<char>)
    requires
        a.len() == 0 || a.last() == '\n',
        forall|j: int| 0 <= j < l.len() ==> l[j] != '\n' && l[j] != '=',
    ensures
        assignments_of(a + l.push('\n') + b) == assignments_of(a + b),
{
    if a.len() > 0 {
        assert(scan_lines(a).1.len() == 0);
    } else {
        assert(scan_lines(a).1 =~= Seq::<char>::empty());
    }
    lemma_scan_one_line(l);
    let t = trim_cr(l);
    assert(forall|j: int| 0 <= j < t.len() ==> t[j] == l[j]);
    lemma_no_eq_no_assignment(t);
    assert(assignments_in(seq![t]) =~= Seq::empty()) by {
        assert(seq![t].drop_last() =~= Seq::<Seq<char>>::empty());
        assert(seq![t].last() == t);
        assert(assignments_in(Seq::<Seq<char>>::empty()) == Seq::<(Seq<char>, Seq<char>)>::empty());
    }
    lemma_scan_concat(a, l.push('\n'));
    let m = a + l.push('\n');
    assert(scan_lines(m).1.len() == 0);
    lemma_lines_after(m, b);
    lemma_lines_after(a, b);
    assert(a + l.push('\n') + b == m + b);
    let sa = scan_lines(a).0;
    let lb = lines_of(b);
    assert(lines_of(m + b) =~= (sa + seq![t]) + lb);
    lemma_assignments_concat(sa + seq![t], lb);
    lemma_assignments_concat(sa, seq![t]);
    lemma_assignments_concat(sa, lb);
    assert(assignments_in(sa) + assignments_in(seq![t]) =~= assignments_in(sa));
}

/// The name that `line` assigns, if it assigns one.
pub open spec fn assigned_name(line: Seq<char>) -> Seq<char> {
    match assignment_of(line) {
        Some(a) => a.0,
        None => Seq::empty(),
    }
}

/// The value that `line` assigns, if it assigns one.
pub open spec fn assigned_value(line: Seq<char>) -> Seq<char> {
    match assignment_of(line) {
        Some(a) => a.1,
        None => Seq::empty(),
    }
}

proof fn lemma_assignments_avoid(ys: Seq<Seq<char>>, name: Seq<char>)
    requires
        forall|k: int|
            0 <= k < ys.len() && (#[trigger] assignment_of(ys[k])) is Some ==> assigned_name(ys[k]) != name,
    ensures
        forall|i: int|
            0 <= i < assignments_in(ys).len() ==> (#[trigger] assignments_in(ys)[i]).0 != name,
    decreases ys.len(),
{
    if ys.len() > 0 {
        let prev = ys.drop_last();
        assert forall|k: int|
            0 <= k < prev.len() && (#[trigger] assignment_of(prev[k])) is Some implies assigned_name(prev[k]) != name by {
            assert(prev[k] == ys[k]);
        }
        lemma_assignments_avoid(prev, name);
        let last = ys[ys.len() - 1];
        assert(last == ys.last());
        if assignment_of(last) is Some {
            assert(assigned_name(last) != name);
            let pa = assignments_in(prev);
            assert(assignments_in(ys) == pa.push((assigned_name(last), assigned_value(last))));
            assert forall|i: int| 0 <= i < assignments_in(ys).len() implies (
            #[trigger] assignments_in(ys)[i]).0 != name by {
                if i < pa.len() {
                    assert(assignments_in(ys)[i] == pa[i]);
                }
            }
        }
    }
}

/// Of the lines of a script's output that set one name, the last decides
/// its value: earlier values are overwritten, not kept or joined.
pub proof fn lemma_later_line_wins(env: Map<Seq<char>, Seq<char>>, output: Seq<char>, j: int)
    requires
        0 <= j < lines_of(output).len(),
        assignment_of(lines_of(output)[j]) is Some,
        forall|k: int|
            j < k < lines_of(output).len() && (#[trigger] assignment_of(lines_of(output)[k])) is Some
                ==> assigned_name(lines_of(output)[k]) != assigned_name(lines_of(output)[j]),
    ensures
        ({
            let name = assigned_name(lines_of(output)[j]);
            apply_all(env, assignments_of(output)).contains_key(name) && apply_all(
                env,
                assignments_of(output),
            )[name] == assigned_value(lines_of(output)[j])
        }),
{
    let ls = lines_of(output);
    let name = assigned_name(ls[j]);
    let value = assigned_value(ls[j]);
    let x = ls.subrange(0, j + 1);
    let y = ls.subrange(j + 1, ls.len() as int);
    assert(ls =~= x + y);
    lemma_assignments_concat(x, y);
    assert(x.last() == ls[j]);
    assert(x.drop_last() =~= ls.subrange(0, j));
    let ax = assignments_in(x);
    assert(ax == assignments_in(x.drop_last()).push((name, value)));
    assert forall|k: int|
        0 <= k < y.len() && (#[trigger] assignment_of(y[k])) is Some implies assigned_name(y[k]) != name by {
        assert(y[k] == ls[j + 1 + k]);
    }
    lemma_assignments_avoid(y, name);
    let all = ax + assignments_in(y);
    assert(all[ax.len() - 1] == (name, value));
    assert forall|k: int| ax.len() - 1 < k < all.len() implies (#[trigger] all[k]).0 != all[ax.len() - 1].0 by {
        assert(all[k] == assignments_in(y)[k - ax.len()]);
    }
    lemma_last_write_wins(env, all, ax.len() - 1);
}

} // verus!
