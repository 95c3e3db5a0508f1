use vstd::prelude::*;

use crate::error::Error;

verus! {

/// What a colour is to the rules: its name and its three channels.
pub type ColorModel = (Seq<char>, u8, u8, u8);

/// The mathematical content of a tube: its capacity and its units, bottom first.
pub struct TubeModel {
    pub capacity: nat,
    pub content: Seq<ColorModel>,
}

impl TubeModel {
    pub open spec fn is_full(self) -> bool {
        self.content.len() >= self.capacity
    }

    pub open spec fn is_empty(self) -> bool {
        self.content.len() == 0
    }

    pub open spec fn is_monochrome(self) -> bool {
        forall|i: int| 0 <= i < self.content.len() ==> #[trigger] self.content[i] == self.content[0]
    }

    /// Full and of one colour: such a tube is never poured from or into.
    pub open spec fn is_complete(self) -> bool {
        self.is_full() && self.is_monochrome()
    }

    /// Sorted: empty, or filled exactly to capacity with one colour.
    pub open spec fn is_solved(self) -> bool {
        self.content.len() == 0 || (self.content.len() == self.capacity && self.is_monochrome())
    }

    pub open spec fn top(self) -> ColorModel {
        self.content.last()
    }

    /// A positive capacity, never exceeded.
    pub open spec fn wf(self) -> bool {
        0 < self.capacity && self.content.len() <= self.capacity
    }
}

/// The pour rules, checked in order; the first one broken gives the error.
pub open spec fn pour_check(src: TubeModel, dst: TubeModel) -> Result<(), Error> {
    if dst.is_full() {
        Err(Error::MaxCapacity)
    } else if src.is_empty() {
        Err(Error::NoContent)
    } else if src.is_complete() || dst.is_complete() {
        Err(Error::CantMove)
    } else if !dst.is_empty() && src.top() != dst.top() {
        Err(Error::DiffColor)
    } else {
        Ok(())
    }
}

/// Length of the run of equal units at the top of a stack.
pub open spec fn top_run(s: Seq<ColorModel>) -> nat
    decreases s.len(),
{
    if s.len() <= 1 {
        s.len()
    } else if s[s.len() - 2] == s.last() {
        1 + top_run(s.drop_last())
    } else {
        1
    }
}

/// How many units a legal pour moves: the top run of the source, at most the
/// room left in the destination.
pub open spec fn pour_amount(src: TubeModel, dst: TubeModel) -> int {
    let room = dst.capacity - dst.content.len();
    if top_run(src.content) <= room {
        top_run(src.content) as int
    } else {
        room
    }
}

/// The two tubes after a legal pour.
pub open spec fn poured(src: TubeModel, dst: TubeModel) -> (TubeModel, TubeModel) {
    let cut = src.content.len() - pour_amount(src, dst);
    (
        TubeModel { capacity: src.capacity, content: src.content.subrange(0, cut) },
        TubeModel {
            capacity: dst.capacity,
            content: dst.content + src.content.subrange(cut, src.content.len() as int),
        },
    )
}

/// A pour from `src` into `dst`: the new pair of tubes, or the broken rule.
pub open spec fn pour_result(src: TubeModel, dst: TubeModel) -> Result<(TubeModel, TubeModel), Error> {
    match pour_check(src, dst) {
        Ok(_) => Ok(poured(src, dst)),
        Err(e) => Err(e),
    }
}

/// A legal pour keeps the number of units and never overfills the destination.
pub proof fn lemma_pour_conserves(src: TubeModel, dst: TubeModel)
    requires
        pour_result(src, dst) is Ok,
    ensures
        ({
            let (a, b) = pour_result(src, dst)->Ok_0;
            &&& a.content.len() + b.content.len() == src.content.len() + dst.content.len()
            &&& b.content.len() <= b.capacity
            &&& a.capacity == src.capacity && b.capacity == dst.capacity
        }),
{
    lemma_top_run_bounds(src.content);
}

/// A legal pour between well-formed tubes leaves them well-formed.
pub proof fn lemma_pour_keeps_wf(src: TubeModel, dst: TubeModel)
    requires
        src.wf(),
        dst.wf(),
        pour_result(src, dst) is Ok,
    ensures
        pour_result(src, dst)->Ok_0.0.wf(),
        pour_result(src, dst)->Ok_0.1.wf(),
{
    lemma_pour_conserves(src, dst);
}

/// Two non-empty tubes whose top colours differ never pour; where the
/// destination has room and the source is not complete, the refusal is
/// `DiffColor`.
pub proof fn lemma_pour_diff_color(src: TubeModel, dst: TubeModel)
    requires
        src.content.len() > 0,
        dst.content.len() > 0,
        src.top() != dst.top(),
    ensures
        pour_check(src, dst) is Err,
        !dst.is_full() && !src.is_complete() ==> pour_check(src, dst) == Err::<(), Error>(Error::DiffColor),
{
}

/// A pour is accepted only into a tube that is not full, from a tube that is not
/// empty, when neither tube is complete and the top colours agree (or the
/// destination is empty).
pub proof fn lemma_pour_rules(src: TubeModel, dst: TubeModel)
    requires
        pour_check(src, dst) is Ok,
    ensures
        !dst.is_full(),
        !src.is_empty(),
        !src.is_complete(),
        !dst.is_complete(),
        dst.is_empty() || src.top() == dst.top(),
{
}

proof fn lemma_top_run_bounds(s: Seq<ColorModel>)
    ensures
        top_run(s) <= s.len(),
        s.len() > 0 ==> top_run(s) >= 1,
    decreases s.len(),
{
    if s.len() > 1 && s[s.len() - 2] == s.last() {
        lemma_top_run_bounds(s.drop_last());
    }
}

/// The top `k` units being equal gives a run of at least `k`, and of exactly `k`
/// where the unit below them differs.
proof fn lemma_top_run_from(s: Seq<ColorModel>, k: int)
    requires
        1 <= k <= s.len(),
        forall|i: int| s.len() - k <= i < s.len() ==> s[i] == s.last(),
    ensures
        k <= top_run(s),
        k < s.len() && s[s.len() - 1 - k] != s.last() ==> top_run(s) == k,
    decreases k,
{
    if k > 1 {
        let t = s.drop_last();
        assert(s[s.len() - 2] == s.last());
        assert forall|i: int| t.len() - (k - 1) <= i < t.len() implies t[i] == t.last() by {
            assert(s[i] == s.last());
        }
        lemma_top_run_from(t, k - 1);
    } else {
        lemma_top_run_bounds(s);
    }
}

/// The colours of `s`, each once, in the order of their first appearance.
pub open spec fn distinct_colors(s: Seq<ColorModel>) -> Seq<ColorModel>
    decreases s.len(),
{
    if s.len() == 0 {
        Seq::empty()
    } else {
        let d = distinct_colors(s.drop_last());
        if d.contains(s.last()) {
            d
        } else {
            d.push(s.last())
        }
    }
}

/// How many units of `s` have colour `c`.
pub open spec fn count_of(s: Seq<ColorModel>, c: ColorModel) -> nat
    decreases s.len(),
{
    if s.len() == 0 {
        0
    } else {
        count_of(s.drop_last(), c) + if s.last() == c {
            1nat
        } else {
            0nat
        }
    }
}

proof fn lemma_count_of(s: Seq<ColorModel>, c: ColorModel)
    ensures
        count_of(s, c) <= s.len(),
        count_of(s, c) > 0 ==> distinct_colors(s).contains(c),
        distinct_colors(s).no_duplicates(),
    decreases s.len(),
{
    if s.len() > 0 {
        lemma_count_of(s.drop_last(), c);
        let d = distinct_colors(s.drop_last());
        if !d.contains(s.last()) {
            assert(d.push(s.last()).last() == s.last());
            if count_of(s.drop_last(), c) > 0 {
                assert(d.push(s.last()).contains(c)) by {
                    let k = choose|k: int| 0 <= k < d.len() && d[k] == c;
                    assert(d.push(s.last())[k] == c);
                }
            }
        }
    }
}

/// A named unit of colour with its three channels.
#[derive(Debug, Clone, Hash)]
pub struct Color {
    name: String,
    r: u8,
    g: u8,
    b: u8,
}

impl View for Color {
    type V = ColorModel;

    closed spec fn view(&self) -> ColorModel {
        (self.name@, self.r, self.g, self.b)
    }
}

impl PartialEq for Color {
    fn eq(&self, other: &Color) -> (r: bool) {
        self.name == other.name && self.r == other.r && self.g == other.g && self.b == other.b
    }
}

impl vstd::std_specs::cmp::PartialEqSpecImpl for Color {
    open spec fn obeys_eq_spec() -> bool {
        true
    }

    open spec fn eq_spec(&self, other: &Color) -> bool {
        self@ == other@
    }
}

impl Eq for Color {
}

impl Color {
    pub fn new(name: String, r: u8, g: u8, b: u8) -> (c: Self)
        ensures
            c@ == (name@, r, g, b),
    {
        Color { name, r, g, b }
    }

    pub fn get_name(&self) -> (n: &str)
        ensures
            n@ == self@.0,
    {
        self.name.as_str()
    }

    pub fn same_name(&self, other: &Color) -> (r: bool)
        ensures
            r == (self@.0 == other@.0),
    {
        self.name == other.name
    }

    /// The red, green and blue channels.
    pub fn rgb(&self) -> (c: (u8, u8, u8))
        ensures
            c == (self@.1, self@.2, self@.3),
    {
        (self.r, self.g, self.b)
    }

    pub fn duplicate(&self) -> (c: Self)
        ensures
            c@ == self@,
    {
        Color { name: self.name.clone(), r: self.r, g: self.g, b: self.b }
    }
}

/// A stack of colours, bottom first, with a fixed capacity.
#[derive(Debug, Clone)]
pub struct Tube {
    capacity: usize,
    content: Vec<Color>,
}

impl PartialEq for Tube {
    fn eq(&self, other: &Tube) -> (r: bool) {
        self.same_as(other)
    }
}

impl vstd::std_specs::cmp::PartialEqSpecImpl for Tube {
    open spec fn obeys_eq_spec() -> bool {
        true
    }

    open spec fn eq_spec(&self, other: &Tube) -> bool {
        self@ == other@
    }
}

impl Eq for Tube {
}

impl View for Tube {
    type V = TubeModel;

    closed spec fn view(&self) -> TubeModel {
        TubeModel {
            capacity: self.capacity as nat,
            content: self.content@.map_values(|c: Color| c@),
        }
    }
}

impl Tube {
    pub fn new(capacity: usize, content: Vec<Color>) -> (t: Self)
        requires
            0 < capacity,
            content@.len() <= capacity,
        ensures
            t@ == (TubeModel { capacity: capacity as nat, content: content@.map_values(|c: Color| c@) }),
            t@.wf(),
    {
        Tube { capacity, content }
    }

    pub fn capacity(&self) -> (c: usize)
        ensures
            c == self@.capacity,
    {
        self.capacity
    }

    /// The units, bottom first.
    pub fn content(&self) -> (c: &Vec<Color>)
        ensures
            c@.map_values(|x: Color| x@) == self@.content,
    {
        &self.content
    }

    pub fn duplicate(&self) -> (t: Self)
        ensures
            t@ == self@,
    {
        let mut content: Vec<Color> = Vec::new();
        let n = self.content.len();
        for i in 0..n
            invariant
                n == self.content.len(),
                content@.len() == i,
                forall|k: int| 0 <= k < i ==> content@[k]@ == self.content@[k]@,
        {
            content.push(self.content[i].duplicate());
        }
        assert(content@.map_values(|c: Color| c@) =~= self@.content);
        Tube { capacity: self.capacity, content }
    }

    /// How many units of each colour the tube holds, the colours in the order
    /// of their first appearance from the bottom.
    pub fn color_counts(&self) -> (counts: Vec<usize>)
        ensures
            counts@.len() == distinct_colors(self@.content).len(),
            forall|j: int|
                0 <= j < counts@.len() ==> counts@[j] == count_of(self@.content, distinct_colors(self@.content)[j]),
    {
        let ghost s = self@.content;
        let mut firsts: Vec<usize> = Vec::new();
        let mut counts: Vec<usize> = Vec::new();
        let n = self.content.len();
        assert(s.take(0) =~= Seq::<ColorModel>::empty());
        let mut k: usize = 0;
        while k < n
            invariant
                k <= n,
                n == self.content.len(),
                n == s.len(),
                s == self@.content,
                firsts@.len() == counts@.len(),
                firsts@.len() == distinct_colors(s.take(k as int)).len(),
                forall|j: int| 0 <= j < firsts@.len() ==> #[trigger] firsts@[j] < k,
                forall|j: int|
                    0 <= j < firsts@.len() ==> s[firsts@[j] as int] == #[trigger] distinct_colors(s.take(k as int))[j],
                forall|j: int|
                    0 <= j < counts@.len() ==> #[trigger] counts@[j] == count_of(
                        s.take(k as int),
                        distinct_colors(s.take(k as int))[j],
                    ),
            decreases n - k,
        {
            let ghost pre = s.take(k as int);
            let ghost d = distinct_colors(pre);
            assert(s.take(k + 1).drop_last() =~= pre);
            assert(s.take(k + 1).last() == s[k as int]);
            proof {
                lemma_count_of(pre, s[k as int]);
            }
            let mut j: usize = 0;
            let mut found = false;
            while j < firsts.len() && !found
                invariant
                    n == self.content.len(),
                    k < n,
                    firsts@.len() == d.len(),
                    j <= firsts@.len(),
                    forall|i: int| 0 <= i < firsts@.len() ==> #[trigger] firsts@[i] < k,
                    forall|i: int| 0 <= i < firsts@.len() ==> s[firsts@[i] as int] == #[trigger] d[i],
                    found ==> j < firsts@.len() && d[j as int] == s[k as int],
                    !found ==> forall|i: int| 0 <= i < j ==> #[trigger] d[i] != s[k as int],
                    s == self@.content,
                decreases firsts@.len() - j + if found { 0int } else { 1int },
            {
                if self.content[firsts[j]] == self.content[k] {
                    found = true;
                } else {
                    j += 1;
                }
            }
            if found {
                assert(d.contains(s[k as int]));
                proof {
                    lemma_count_of(pre, d[j as int]);
                }
                let c = counts[j];
                counts.set(j, c + 1);
                assert forall|i: int| 0 <= i < counts@.len() && i != j implies d[i] != s[k as int] by {
                    assert(d.no_duplicates());
                }
            } else {
                assert(!d.contains(s[k as int]));
                assert(count_of(pre, s[k as int]) == 0);
                firsts.push(k);
                counts.push(1);
            }
            proof {
                let d2 = distinct_colors(s.take(k + 1));
                assert(d2 == if found { d } else { d.push(s[k as int]) });
                assert forall|i: int| 0 <= i < firsts@.len() implies s[firsts@[i] as int] == #[trigger] d2[i] by {
                    if i < d.len() {
                        assert(s[firsts@[i] as int] == d[i]);
                    }
                }
                assert forall|i: int| 0 <= i < counts@.len() implies #[trigger] counts@[i] == count_of(s.take(k + 1), d2[i]) by {
                    if i < d.len() {
                        assert(d2[i] == d[i]);
                    }
                }
            }
            k += 1;
        }
        assert(s.take(n as int) =~= s);
        counts
    }

    /// Whether two tubes have the same capacity and the same units.
    pub fn same_as(&self, other: &Tube) -> (r: bool)
        ensures
            r == (self@ == other@),
    {
        if self.capacity != other.capacity || self.content.len() != other.content.len() {
            assert(self@.content.len() == self.content.len() && other@.content.len() == other.content.len());
            return false;
        }
        let m = self.content.len();
        for j in 0..m
            invariant
                m == self.content.len(),
                m == other.content.len(),
                forall|k: int| 0 <= k < j ==> self@.content[k] == other@.content[k],
        {
            if self.content[j] != other.content[j] {
                assert(self@.content[j as int] != other@.content[j as int]);
                return false;
            }
        }
        assert(self@.content =~= other@.content);
        true
    }

    pub fn is_full(&self) -> (r: bool)
        ensures
            r == self@.is_full(),
    {
        self.content.len() >= self.capacity
    }

    pub fn is_empty(&self) -> (r: bool)
        ensures
            r == self@.is_empty(),
    {
        self.content.len() == 0
    }

    fn is_monochrome(&self) -> (r: bool)
        ensures
            r == self@.is_monochrome(),
    {
        let n = self.content.len();
        if n == 0 {
            return true;
        }
        let mut i: usize = 1;
        while i < n
            invariant
                n == self.content.len(),
                1 <= i <= n,
                forall|k: int| 0 <= k < i ==> #[trigger] self@.content[k] == self@.content[0],
            decreases n - i,
        {
            if self.content[i] != self.content[0] {
                assert(self@.content[i as int] != self@.content[0]);
                return false;
            }
            i += 1;
        }
        true
    }

    pub fn is_complete(&self) -> (r: bool)
        ensures
            r == self@.is_complete(),
    {
        self.is_full() && self.is_monochrome()
    }

    /// Whether the tube is sorted: empty, or full of a single colour.
    pub fn is_solved(&self) -> (r: bool)
        ensures
            r == self@.is_solved(),
    {
        let n = self.content.len();
        n == 0 || (n == self.capacity && self.is_monochrome())
    }

    /// Checks the pour rules from `self` into `other`, in order.
    pub fn is_pour_valid(&self, other: &Tube) -> (r: Result<(), Error>)
        ensures
            r == pour_check(self@, other@),
    {
        if other.is_full() {
            return Err(Error::MaxCapacity);
        }
        if self.is_empty() {
            return Err(Error::NoContent);
        }
        if self.is_complete() || other.is_complete() {
            return Err(Error::CantMove);
        }
        if !other.is_empty() && self.content[self.content.len() - 1] != other.content[other.content.len() - 1] {
            return Err(Error::DiffColor);
        }
        Ok(())
    }

    /// Pours the top run of `self` into `other`, as far as `other` has room.
    /// A refused pour changes neither tube.
    pub fn pour(&mut self, other: &mut Tube) -> (r: Result<(), Error>)
        ensures
            match pour_result(old(self)@, old(other)@) {
                Ok((a, b)) => {
                    &&& r is Ok
                    &&& final(self)@ == a
                    &&& final(other)@ == b
                    &&& a.content.len() + b.content.len() == old(self)@.content.len() + old(other)@.content.len()
                    &&& b.content.len() <= b.capacity
                    &&& old(self)@.wf() && old(other)@.wf() ==> a.wf() && b.wf()
                },
                Err(e) => r == Err::<(), Error>(e) && final(self)@ == old(self)@ && final(other)@ == old(other)@,
            },
    {
        match self.is_pour_valid(other) {
            Err(e) => return Err(e),
            Ok(()) => {},
        }
        let room = other.capacity - other.content.len();
        let n = self.content.len();
        let mut k: usize = 1;
        while k < room && k < n && self.content[n - 1 - k] == self.content[n - 1]
            invariant
                n == self.content.len(),
                n == self@.content.len(),
                1 <= k <= n,
                k <= room,
                forall|i: int| n - k <= i < n ==> self@.content[i] == self@.content.last(),
            decreases n - k,
        {
            k += 1;
        }
        proof {
            lemma_top_run_bounds(self@.content);
            lemma_top_run_from(self@.content, k as int);
            assert(k == pour_amount(self@, other@));
        }
        let mut moved = self.content.split_off(n - k);
        other.content.append(&mut moved);
        proof {
            lemma_pour_conserves(old(self)@, old(other)@);
            if old(self)@.wf() && old(other)@.wf() {
                lemma_pour_keeps_wf(old(self)@, old(other)@);
            }
            let (a, b) = poured(old(self)@, old(other)@);
            assert(self@.content =~= a.content);
            assert(other@.content =~= b.content);
        }
        Ok(())
    }
}

/// A puzzle state as a sequence of tube models.
pub type StateModel = Seq<TubeModel>;

/// Every tube is sorted.
pub open spec fn wins(s: StateModel) -> bool {
    forall|i: int| 0 <= i < s.len() ==> #[trigger] s[i].is_solved()
}

/// A move between two distinct tubes of `s` that the pour rules accept.
pub open spec fn valid_move(s: StateModel, m: (usize, usize)) -> bool {
    &&& m.0 < s.len()
    &&& m.1 < s.len()
    &&& m.0 != m.1
    &&& pour_check(s[m.0 as int], s[m.1 as int]) is Ok
}

/// The order in which moves are listed: by the lower tube index, then the
/// higher one, the upward direction first.
pub open spec fn move_key(m: (usize, usize)) -> (int, int, int) {
    if m.0 < m.1 {
        (m.0 as int, m.1 as int, 0)
    } else {
        (m.1 as int, m.0 as int, 1)
    }
}

pub open spec fn key_lt(a: (int, int, int), b: (int, int, int)) -> bool {
    a.0 < b.0 || (a.0 == b.0 && (a.1 < b.1 || (a.1 == b.1 && a.2 < b.2)))
}

/// `ms` holds every legal move of `s` once, in the order of `move_key`.
pub open spec fn lists_moves(s: StateModel, ms: Seq<(usize, usize)>) -> bool {
    &&& forall|m: (usize, usize)| ms.contains(m) <==> valid_move(s, m)
    &&& forall|i: int, j: int| 0 <= i < j < ms.len() ==> key_lt(move_key(ms[i]), move_key(ms[j]))
}

/// Every tube is well-formed.
pub open spec fn state_wf(s: StateModel) -> bool {
    forall|i: int| 0 <= i < s.len() ==> #[trigger] s[i].wf()
}

/// The legal moves of `s`, in the order of `move_key`.
pub open spec fn legal_moves(s: StateModel) -> Seq<(usize, usize)> {
    choose|ms: Seq<(usize, usize)>| lists_moves(s, ms)
}

/// Two sequences strictly ordered by `move_key` with the same members are equal.
proof fn lemma_sorted_moves_unique(a: Seq<(usize, usize)>, b: Seq<(usize, usize)>)
    requires
        forall|i: int, j: int| 0 <= i < j < a.len() ==> key_lt(move_key(a[i]), move_key(a[j])),
        forall|i: int, j: int| 0 <= i < j < b.len() ==> key_lt(move_key(b[i]), move_key(b[j])),
        forall|m: (usize, usize)| a.contains(m) <==> b.contains(m),
    ensures
        a == b,
    decreases a.len(),
{
    if a.len() == 0 {
        if b.len() > 0 {
            assert(b.contains(b[0]));
        }
        assert(a =~= b);
    } else {
        assert(a.contains(a[0]));
        let k = choose|k: int| 0 <= k < b.len() && b[k] == a[0];
        assert(b.contains(b[0]));
        let l = choose|l: int| 0 <= l < a.len() && a[l] == b[0];
        if k > 0 && l > 0 {
            assert(key_lt(move_key(b[0]), move_key(b[k])));
            assert(key_lt(move_key(a[0]), move_key(a[l])));
        }
        assert(a[0] == b[0]);
        let a1 = a.drop_first();
        let b1 = b.drop_first();
        assert forall|m: (usize, usize)| a1.contains(m) <==> b1.contains(m) by {
            if a1.contains(m) {
                let x = choose|x: int| 0 <= x < a1.len() && a1[x] == m;
                assert(a[x + 1] == m);
                assert(key_lt(move_key(a[0]), move_key(a[x + 1])));
                assert(a.contains(m));
                let y = choose|y: int| 0 <= y < b.len() && b[y] == m;
                assert(y != 0);
                assert(b1[y - 1] == m);
            }
            if b1.contains(m) {
                let x = choose|x: int| 0 <= x < b1.len() && b1[x] == m;
                assert(b[x + 1] == m);
                assert(key_lt(move_key(b[0]), move_key(b[x + 1])));
                assert(b.contains(m));
                let y = choose|y: int| 0 <= y < a.len() && a[y] == m;
                assert(y != 0);
                assert(a1[y - 1] == m);
            }
        }
        lemma_sorted_moves_unique(a1, b1);
        assert(a.len() == a1.len() + 1 && b.len() == b1.len() + 1);
        assert forall|i: int| 0 <= i < a.len() implies a[i] == b[i] by {
            if i > 0 {
                assert(a[i] == a1[i - 1]);
                assert(b[i] == b1[i - 1]);
            }
        }
        assert(a =~= b);
    }
}

/// The state after pouring from tube `from` into tube `to`, or why not. The
/// destination index is checked first. A tube poured into itself gets the pour
/// rules' verdict on that tube and, where they accept, moves nothing.
pub open spec fn apply_move(s: StateModel, from: usize, to: usize) -> Result<StateModel, Error> {
    if to >= s.len() {
        Err(Error::InvalidMove("To tube doesn't exist"))
    } else if from >= s.len() {
        Err(Error::InvalidMove("From tube doesn't exist"))
    } else if from == to {
        match pour_check(s[from as int], s[to as int]) {
            Ok(_) => Ok(s),
            Err(e) => Err(e),
        }
    } else {
        match pour_result(s[from as int], s[to as int]) {
            Ok((a, b)) => Ok(s.update(from as int, a).update(to as int, b)),
            Err(e) => Err(e),
        }
    }
}

/// A move keeps the number of units of the two tubes, and keeps every tube
/// well-formed.
pub proof fn lemma_move_keeps_units(s: StateModel, from: usize, to: usize)
    requires
        apply_move(s, from, to) is Ok,
    ensures
        ({
            let t = apply_move(s, from, to)->Ok_0;
            &&& t.len() == s.len()
            &&& from == to ==> t == s
            &&& t[from as int].content.len() + t[to as int].content.len()
                == s[from as int].content.len() + s[to as int].content.len()
            &&& forall|i: int| 0 <= i < s.len() && i != from && i != to ==> #[trigger] t[i] == s[i]
            &&& state_wf(s) ==> state_wf(t)
        }),
{
    if from != to {
        lemma_pour_conserves(s[from as int], s[to as int]);
        if state_wf(s) {
            lemma_pour_keeps_wf(s[from as int], s[to as int]);
            let t = apply_move(s, from, to)->Ok_0;
            assert forall|i: int| 0 <= i < t.len() implies #[trigger] t[i].wf() by {
                if i != from && i != to {
                    assert(s[i].wf());
                }
            }
        }
    }
}

/// A move fails with `InvalidMove` exactly when a tube index is out of range;
/// between tubes that exist, the error is the pour rules' own.
pub proof fn lemma_invalid_move_iff_out_of_range(s: StateModel, from: usize, to: usize)
    ensures
        (apply_move(s, from, to) is Err && apply_move(s, from, to)->Err_0 is InvalidMove) <==> (from >= s.len()
            || to >= s.len()),
        from < s.len() && to < s.len() ==> match pour_check(s[from as int], s[to as int]) {
            Ok(_) => apply_move(s, from, to) is Ok,
            Err(e) => apply_move(s, from, to) == Err::<StateModel, Error>(e),
        },
{
}

/// The state reached by making `moves` in order from `s`, or the first error.
pub open spec fn replay(s: StateModel, moves: Seq<(usize, usize)>) -> Result<StateModel, Error>
    decreases moves.len(),
{
    if moves.len() == 0 {
        Ok(s)
    } else {
        match replay(s, moves.drop_last()) {
            Ok(t) => apply_move(t, moves.last().0, moves.last().1),
            Err(e) => Err(e),
        }
    }
}

/// An ordered collection of tubes.
#[derive(Debug, Clone)]
pub struct GameState {
    tubes: Vec<Tube>,
}

impl View for GameState {
    type V = StateModel;

    closed spec fn view(&self) -> StateModel {
        self.tubes@.map_values(|t: Tube| t@)
    }
}

impl PartialEq for GameState {
    fn eq(&self, other: &GameState) -> (r: bool) {
        self.same_as(other)
    }
}

impl vstd::std_specs::cmp::PartialEqSpecImpl for GameState {
    open spec fn obeys_eq_spec() -> bool {
        true
    }

    open spec fn eq_spec(&self, other: &GameState) -> bool {
        self@ == other@
    }
}

impl Eq for GameState {
}

impl GameState {
    pub fn new(tubes: Vec<Tube>) -> (g: Self)
        ensures
            g@ == tubes@.map_values(|t: Tube| t@),
    {
        GameState { tubes }
    }

    pub fn tube_num(&self) -> (n: usize)
        ensures
            n == self@.len(),
    {
        self.tubes.len()
    }

    /// The tubes, in order.
    pub fn tubes(&self) -> (t: &Vec<Tube>)
        ensures
            t@.map_values(|x: Tube| x@) == self@,
    {
        &self.tubes
    }

    pub fn duplicate(&self) -> (g: Self)
        ensures
            g@ == self@,
    {
        let mut tubes: Vec<Tube> = Vec::new();
        let n = self.tubes.len();
        for i in 0..n
            invariant
                n == self.tubes.len(),
                tubes@.len() == i,
                forall|k: int| 0 <= k < i ==> tubes@[k]@ == self.tubes@[k]@,
        {
            tubes.push(self.tubes[i].duplicate());
        }
        assert(tubes@.map_values(|t: Tube| t@) =~= self@);
        GameState { tubes }
    }

    /// Whether two states hold the same tubes with the same units.
    pub fn same_as(&self, other: &GameState) -> (r: bool)
        ensures
            r == (self@ == other@),
    {
        let n = self.tubes.len();
        assert(self@.len() == n && other@.len() == other.tubes@.len());
        if n != other.tubes.len() {
            return false;
        }
        for i in 0..n
            invariant
                n == self.tubes.len(),
                n == other.tubes.len(),
                forall|k: int| 0 <= k < i ==> self@[k] == other@[k],
        {
            assert(self@[i as int] == self.tubes@[i as int]@ && other@[i as int] == other.tubes@[i as int]@);
            if !self.tubes[i].same_as(&other.tubes[i]) {
                return false;
            }
        }
        assert(self@ =~= other@);
        true
    }

    /// Whether every tube is empty or full of a single colour.
    pub fn check_win(&self) -> (r: bool)
        ensures
            r == wins(self@),
    {
        let n = self.tubes.len();
        for i in 0..n
            invariant
                n == self.tubes.len(),
                forall|k: int| 0 <= k < i ==> #[trigger] self@[k].is_solved(),
        {
            if !self.tubes[i].is_solved() {
                assert(!self@[i as int].is_solved());
                return false;
            }
        }
        true
    }

    /// Every legal move, each once, in the order of `move_key`.
    pub fn available_moves(&self) -> (moves: Vec<(usize, usize)>)
        ensures
            moves@ == legal_moves(self@),
            forall|m: (usize, usize)| moves@.contains(m) <==> valid_move(self@, m),
            forall|i: int, j: int|
                0 <= i < j < moves@.len() ==> key_lt(move_key(moves@[i]), move_key(moves@[j])),
    {
        let mut moves: Vec<(usize, usize)> = Vec::new();
        let n = self.tubes.len();
        for i in 0..n
            invariant
                n == self.tubes.len(),
                n == self@.len(),
                forall|m: (usize, usize)|
                    moves@.contains(m) <==> (valid_move(self@, m) && move_key(m).0 < i),
                forall|a: int, b: int|
                    0 <= a < b < moves@.len() ==> key_lt(move_key(moves@[a]), move_key(moves@[b])),
                forall|a: int| 0 <= a < moves@.len() ==> move_key(#[trigger] moves@[a]).0 < i,
        {
            for j in i + 1..n
                invariant
                    n == self.tubes.len(),
                    n == self@.len(),
                    i < n,
                    forall|m: (usize, usize)|
                        moves@.contains(m) <==> (valid_move(self@, m) && key_lt(
                            move_key(m),
                            (i as int, j as int, 0),
                        )),
                    forall|a: int, b: int|
                        0 <= a < b < moves@.len() ==> key_lt(
                            move_key(moves@[a]),
                            move_key(moves@[b]),
                        ),
                    forall|a: int|
                        0 <= a < moves@.len() ==> key_lt(
                            move_key(#[trigger] moves@[a]),
                            (i as int, j as int, 0),
                        ),
            {
                let ghost before = moves@;
                if self.tubes[i].is_pour_valid(&self.tubes[j]).is_ok() {
                    moves.push((i, j));
                }
                let ghost middle = moves@;
                if self.tubes[j].is_pour_valid(&self.tubes[i]).is_ok() {
                    moves.push((j, i));
                }
                proof {
                    assert forall|m: (usize, usize)|
                        moves@.contains(m) <==> (valid_move(self@, m) && key_lt(
                            move_key(m),
                            (i as int, j as int + 1, 0),
                        )) by {
                        if moves@.contains(m) {
                            let a = choose|a: int| 0 <= a < moves@.len() && moves@[a] == m;
                            if a >= middle.len() {
                                assert(m == (j, i));
                            } else if a >= before.len() {
                                assert(middle[a] == m);
                                assert(m == (i, j));
                            } else {
                                assert(before[a] == m);
                                assert(before.contains(m));
                            }
                        }
                        if valid_move(self@, m) && key_lt(move_key(m), (i as int, j as int + 1, 0)) {
                            if key_lt(move_key(m), (i as int, j as int, 0)) {
                                assert(before.contains(m));
                                let a = choose|a: int| 0 <= a < before.len() && before[a] == m;
                                assert(moves@[a] == m);
                            } else if m.0 < m.1 {
                                assert(m == (i, j));
                                assert(middle[before.len() as int] == m);
                                assert(moves@[before.len() as int] == m);
                            } else {
                                assert(m == (j, i));
                                assert(moves@[middle.len() as int] == m);
                            }
                        }
                    }
                }
            }
            proof {
                assert forall|m: (usize, usize)|
                    moves@.contains(m) <==> (valid_move(self@, m) && move_key(m).0 < i + 1) by {
                    if moves@.contains(m) {
                        let a = choose|a: int| 0 <= a < moves@.len() && moves@[a] == m;
                    }
                }
            }
        }
        proof {
            assert(lists_moves(self@, moves@));
            lemma_sorted_moves_unique(moves@, legal_moves(self@));
        }
        moves
    }

    /// Makes a move in place; a refused move leaves the state as it was.
    pub fn make_move_in_place(&mut self, from: usize, to: usize) -> (r: Result<(), Error>)
        ensures
            match apply_move(old(self)@, from, to) {
                Ok(t) => r is Ok && final(self)@ == t && (state_wf(old(self)@) ==> state_wf(t)),
                Err(e) => r == Err::<(), Error>(e) && final(self)@ == old(self)@,
            },
    {
        if to >= self.tubes.len() {
            return Err(Error::InvalidMove("To tube doesn't exist"));
        }
        if from >= self.tubes.len() {
            return Err(Error::InvalidMove("From tube doesn't exist"));
        }
        if from == to {
            return match self.tubes[from].is_pour_valid(&self.tubes[to]) {
                Ok(()) => Ok(()),
                Err(e) => Err(e),
            };
        }
        let mut dst = self.tubes[to].duplicate();
        let mut src = self.tubes[from].duplicate();
        match src.pour(&mut dst) {
            Err(e) => return Err(e),
            Ok(()) => {},
        }
        let ghost s0 = self@;
        self.tubes.set(from, src);
        self.tubes.set(to, dst);
        proof {
            lemma_move_keeps_units(s0, from, to);
            let (a, b) = poured(s0[from as int], s0[to as int]);
            assert(self@ =~= s0.update(from as int, a).update(to as int, b));
        }
        Ok(())
    }

    /// The state after a move, leaving `self` as it is.
    pub fn make_move(&self, from: usize, to: usize) -> (r: Result<Self, Error>)
        ensures
            match apply_move(self@, from, to) {
                Ok(t) => r is Ok && r->Ok_0@ == t && (state_wf(self@) ==> state_wf(t)),
                Err(e) => r is Err && r->Err_0 == e,
            },
    {
        let mut next = self.duplicate();
        match next.make_move_in_place(from, to) {
            Ok(()) => Ok(next),
            Err(e) => Err(e),
        }
    }
}

} // verus!
