//! The registry of flags: registration and parsing.
use vstd::prelude::*;
use vstd::string::*;
use crate::target::{ArgError, Fill, Slot, Target, texts};
use crate::order::{lemma_lex_total, lemma_lex_trans, lex_lt, text_lt};

verus! {

/// Anything that can be bound to a flag: it names the variable that the flag
/// writes to, and how the value token is read.
pub trait Filler<'a>: Sized {
    spec fn target_spec(self) -> Target<'a>;

    /// The target refers to the same variable as `target_spec`, which holds
    /// the same value.
    fn into_target(self) -> (t: Target<'a>)
        ensures
            match (t, self.target_spec()) {
                (Target::Flag(x), Target::Flag(y)) => *x == *y && *final(x) == *final(y),
                (Target::Bool(x), Target::Bool(y)) => *x == *y && *final(x) == *final(y),
                (Target::Usize(x), Target::Usize(y)) => *x == *y && *final(x) == *final(y),
                (Target::I64(x), Target::I64(y)) => *x == *y && *final(x) == *final(y),
                (Target::U32(x), Target::U32(y)) => *x == *y && *final(x) == *final(y),
                (Target::U64(x), Target::U64(y)) => *x == *y && *final(x) == *final(y),
                (Target::I32(x), Target::I32(y)) => *x == *y && *final(x) == *final(y),
                (Target::Char(x), Target::Char(y)) => *x == *y && *final(x) == *final(y),
                (Target::Text(x), Target::Text(y)) => *x == *y && *final(x) == *final(y),
                _ => false,
            },
    ;
}

impl<'a> Filler<'a> for &'a mut bool {
    open spec fn target_spec(self) -> Target<'a> {
        Target::Bool(self)
    }

    fn into_target(self) -> (t: Target<'a>) {
        Target::Bool(self)
    }
}

impl<'a> Filler<'a> for &'a mut usize {
    open spec fn target_spec(self) -> Target<'a> {
        Target::Usize(self)
    }

    fn into_target(self) -> (t: Target<'a>) {
        Target::Usize(self)
    }
}

impl<'a> Filler<'a> for &'a mut i64 {
    open spec fn target_spec(self) -> Target<'a> {
        Target::I64(self)
    }

    fn into_target(self) -> (t: Target<'a>) {
        Target::I64(self)
    }
}

impl<'a> Filler<'a> for &'a mut u32 {
    open spec fn target_spec(self) -> Target<'a> {
        Target::U32(self)
    }

    fn into_target(self) -> (t: Target<'a>) {
        Target::U32(self)
    }
}

impl<'a> Filler<'a> for &'a mut u64 {
    open spec fn target_spec(self) -> Target<'a> {
        Target::U64(self)
    }

    fn into_target(self) -> (t: Target<'a>) {
        Target::U64(self)
    }
}

impl<'a> Filler<'a> for &'a mut i32 {
    open spec fn target_spec(self) -> Target<'a> {
        Target::I32(self)
    }

    fn into_target(self) -> (t: Target<'a>) {
        Target::I32(self)
    }
}

impl<'a> Filler<'a> for &'a mut char {
    open spec fn target_spec(self) -> Target<'a> {
        Target::Char(self)
    }

    fn into_target(self) -> (t: Target<'a>) {
        Target::Char(self)
    }
}

impl<'a> Filler<'a> for &'a mut String {
    open spec fn target_spec(self) -> Target<'a> {
        Target::Text(self)
    }

    fn into_target(self) -> (t: Target<'a>) {
        Target::Text(self)
    }
}

/// Why a parse stopped.
#[derive(Debug)]
pub enum ParseFailure {
    /// A flag token named no registered binding.
    UnknownFlag(String),
    /// The converter of the named flag failed.
    Failed(String, ArgError),
}

struct Binding<'a> {
    name: String,
    description: String,
    target: Target<'a>,
}

/// The registry: flag names bound to caller-owned variables, and an optional
/// program name for the usage header.
pub struct Arguments<'a> {
    flags: Vec<Binding<'a>>,
    name: Option<String>,
}

pub open spec fn distinct(names: Seq<Seq<char>>) -> bool {
    forall|i: int, j: int| 0 <= i < j < names.len() ==> names[i] != names[j]
}

/// The position of `n` in `names`, or -1.
pub open spec fn find(names: Seq<Seq<char>>, n: Seq<char>) -> int
    decreases names.len(),
{
    if names.len() == 0 {
        -1
    } else if names.last() == n {
        names.len() - 1
    } else {
        find(names.drop_last(), n)
    }
}

pub proof fn lemma_find(names: Seq<Seq<char>>, n: Seq<char>)
    ensures
        -1 <= find(names, n) < names.len(),
        find(names, n) >= 0 ==> names[find(names, n)] == n,
        find(names, n) == -1 <==> forall|i: int| 0 <= i < names.len() ==> names[i] != n,
        distinct(names) ==> forall|i: int| 0 <= i < names.len() && names[i] == n ==> find(names, n) == i,
    decreases names.len(),
{
    if names.len() > 0 {
        let init = names.drop_last();
        lemma_find(init, n);
        if names.last() != n {
            assert forall|i: int| 0 <= i < init.len() implies names[i] == init[i] by {}
        }
    }
}

/// Where a binding registered under `n` stands: its old place, or the end.
pub open spec fn slot_index(names: Seq<Seq<char>>, n: Seq<char>) -> int {
    if find(names, n) >= 0 {
        find(names, n)
    } else {
        names.len() as int
    }
}

/// The names after registering `n`.
pub open spec fn registered(names: Seq<Seq<char>>, n: Seq<char>) -> Seq<Seq<char>> {
    if find(names, n) >= 0 {
        names
    } else {
        names.push(n)
    }
}

/// A token of the form `--name`.
pub open spec fn is_flag_token(t: Seq<char>) -> bool {
    t.len() >= 2 && t[0] == '-' && t[1] == '-'
}

/// The flag tokens, in order, with the `--` taken off.
pub open spec fn flag_tokens(ts: Seq<Seq<char>>) -> Seq<Seq<char>>
    decreases ts.len(),
{
    if ts.len() == 0 {
        Seq::empty()
    } else if is_flag_token(ts.last()) {
        flag_tokens(ts.drop_last()).push(ts.last().skip(2))
    } else {
        flag_tokens(ts.drop_last())
    }
}

/// The value tokens, in order.
pub open spec fn value_tokens(ts: Seq<Seq<char>>) -> Seq<Seq<char>>
    decreases ts.len(),
{
    if ts.len() == 0 {
        Seq::empty()
    } else if is_flag_token(ts.last()) {
        value_tokens(ts.drop_last())
    } else {
        value_tokens(ts.drop_last()).push(ts.last())
    }
}

/// How a parse ends.
pub enum Outcome {
    /// Every flag was applied; the value cursor stands at the given position.
    Leftover(nat),
    UnknownFlag(Seq<char>),
    OutOfArgs(Seq<char>),
    /// The flag's value token did not convert to the type with the given label.
    Unparsable(Seq<char>, Seq<char>),
}

/// Applies the flags from the `i`-th on, in order, to the values of the
/// bindings, with the value cursor at `pos`. Stops at the first failure; what
/// earlier flags wrote stays.
pub open spec fn run(
    names: Seq<Seq<char>>,
    slots: Seq<Slot>,
    flags: Seq<Seq<char>>,
    vals: Seq<Seq<char>>,
    i: nat,
    pos: nat,
) -> (Seq<Slot>, Outcome)
    decreases flags.len() - i,
{
    if i >= flags.len() {
        (slots, Outcome::Leftover(pos))
    } else {
        let k = find(names, flags[i as int]);
        if k < 0 || k >= slots.len() {
            (slots, Outcome::UnknownFlag(flags[i as int]))
        } else {
            let step = slots[k].fill(vals, pos);
            match step.1 {
                Fill::Took(p) => run(names, slots.update(k, step.0), flags, vals, i + 1, p),
                Fill::OutOfArgs => (slots, Outcome::OutOfArgs(flags[i as int])),
                Fill::Unparsable => (slots, Outcome::Unparsable(flags[i as int], slots[k].label())),
            }
        }
    }
}

/// The values of the bindings after parsing `tokens`, and how the parse ends.
pub open spec fn parse_spec(names: Seq<Seq<char>>, slots: Seq<Slot>, tokens: Seq<Seq<char>>) -> (
    Seq<Slot>,
    Outcome,
) {
    run(names, slots, flag_tokens(tokens), value_tokens(tokens), 0, 0)
}

pub open spec fn strings(v: Seq<String>) -> Seq<Seq<char>> {
    v.map_values(|s: String| s@)
}

/// `r` is what `parse` returns for the outcome `o` over the value tokens `vals`.
pub open spec fn reports(r: Result<Vec<String>, ParseFailure>, o: Outcome, vals: Seq<Seq<char>>) -> bool {
    match o {
        Outcome::Leftover(p) => r is Ok && strings(r->Ok_0@) == vals.skip(p as int),
        Outcome::UnknownFlag(n) => r is Err && r->Err_0 is UnknownFlag && r->Err_0->UnknownFlag_0@
            == n,
        Outcome::OutOfArgs(n) => r is Err && r->Err_0 is Failed && r->Err_0->Failed_0@ == n
            && r->Err_0->Failed_1 is OutOfArgs,
        Outcome::Unparsable(n, l) => r is Err && r->Err_0 is Failed && r->Err_0->Failed_0@ == n
            && r->Err_0->Failed_1 is Unparsable && r->Err_0->Failed_1->Unparsable_0@ == l,
    }
}

/// The width that a flag's name is padded to in the usage text.
pub const NAME_WIDTH: usize = 20;

pub open spec fn spaces(n: nat) -> Seq<char> {
    Seq::new(n, |_i: int| ' ')
}

/// `name`, padded with spaces on the right to `NAME_WIDTH` characters.
pub open spec fn padded(name: Seq<char>) -> Seq<char> {
    if name.len() >= NAME_WIDTH {
        name
    } else {
        name + spaces((NAME_WIDTH - name.len()) as nat)
    }
}

/// One line of the usage text.
pub open spec fn usage_line(name: Seq<char>, label: Seq<char>, description: Seq<char>) -> Seq<char> {
    "\t--"@ + padded(name) + " ("@ + label + ") "@ + description + "\n"@
}

/// The header of the usage text; none without a program name.
pub open spec fn usage_header(program: Option<Seq<char>>) -> Seq<char> {
    match program {
        Some(p) => "usage:\n"@ + p + " [flags] args...\n"@,
        None => Seq::empty(),
    }
}

/// `ord` lists every position of `names` once, with the names in strictly
/// increasing order.
pub open spec fn sorted_order(names: Seq<Seq<char>>, ord: Seq<int>) -> bool {
    &&& ord.len() == names.len()
    &&& forall|k: int| 0 <= k < ord.len() ==> 0 <= #[trigger] ord[k] < names.len()
    &&& forall|a: int, b: int|
        0 <= a < b < ord.len() ==> lex_lt(names[#[trigger] ord[a]], names[#[trigger] ord[b]])
    &&& forall|i: int| 0 <= i < names.len() ==> #[trigger] ord.contains(i)
}

pub open spec fn as_ints(v: Seq<usize>) -> Seq<int> {
    v.map_values(|u: usize| u as int)
}

fn same_text(a: &str, b: &str) -> (r: bool)
    ensures
        r == (a@ == b@),
{
    let n = a.unicode_len();
    if n != b.unicode_len() {
        return false;
    }
    let mut i: usize = 0;
    while i < n
        invariant
            n == a@.len() == b@.len(),
            i <= n,
            forall|k: int| 0 <= k < i ==> a@[k] == b@[k],
        decreases n - i,
    {
        if a.get_char(i) != b.get_char(i) {
            return false;
        }
        i = i + 1;
    }
    assert(a@ =~= b@);
    true
}

impl<'a> Arguments<'a> {
    pub closed spec fn names(&self) -> Seq<Seq<char>> {
        self.flags@.map_values(|b: Binding<'a>| b.name@)
    }

    pub closed spec fn descriptions(&self) -> Seq<Seq<char>> {
        self.flags@.map_values(|b: Binding<'a>| b.description@)
    }

    pub closed spec fn targets(&self) -> Seq<Target<'a>> {
        self.flags@.map_values(|b: Binding<'a>| b.target)
    }

    /// The current values of the bound variables, binding by binding.
    pub open spec fn slots(&self) -> Seq<Slot> {
        self.targets().map_values(|t: Target<'a>| t@)
    }

    /// The program name for the usage header.
    pub closed spec fn program(&self) -> Option<Seq<char>> {
        match self.name {
            Some(s) => Some(s@),
            None => None,
        }
    }

    /// Each name is bound once.
    pub open spec fn wf(&self) -> bool {
        &&& distinct(self.names())
        &&& self.descriptions().len() == self.names().len()
        &&& self.targets().len() == self.names().len()
    }

    /// Once a registry is no longer used, so is each of its targets: every
    /// bound variable then holds the value of its binding.
    pub proof fn lemma_resolved(&self)
        requires
            has_resolved(*self),
        ensures
            forall|i: int| 0 <= i < self.targets().len() ==> has_resolved(#[trigger] self.targets()[i]),
    {
        assert forall|i: int| 0 <= i < self.targets().len() implies has_resolved(
            #[trigger] self.targets()[i],
        ) by {
            assert(has_resolved(self.flags));
            assert(has_resolved(self.flags@[i]));
        }
    }

    pub fn new(name: Option<&str>) -> (r: Self)
        ensures
            r.wf(),
            r.names().len() == 0,
            r.descriptions().len() == 0,
            r.targets().len() == 0,
            r.program() == (match name {
                Some(s) => Some(s@),
                None => None::<Seq<char>>,
            }),
    {
        let name = match name {
            Some(s) => Some(s.to_owned()),
            None => None,
        };
        Arguments { flags: Vec::new(), name }
    }

    fn find_index(&self, name: &str) -> (r: Option<usize>)
        requires
            self.wf(),
        ensures
            match r {
                Some(k) => find(self.names(), name@) == k,
                None => find(self.names(), name@) == -1,
            },
    {
        proof {
            lemma_find(self.names(), name@);
        }
        let mut i: usize = 0;
        while i < self.flags.len()
            invariant
                i <= self.flags@.len(),
                self.wf(),
                self.names().len() == self.flags@.len(),
                forall|k: int| 0 <= k < i ==> self.names()[k] != name@,
            decreases self.flags@.len() - i,
        {
            if same_text(self.flags[i].name.as_str(), name) {
                proof {
                    assert(self.names()[i as int] == self.flags@[i as int].name@);
                    lemma_find(self.names(), name@);
                    assert(distinct(self.names()));
                }
                return Some(i);
            }
            i = i + 1;
        }
        proof {
            lemma_find(self.names(), name@);
        }
        None
    }

    fn bind(&mut self, target: Target<'a>, name: &str, description: &str)
        requires
            old(self).wf(),
        ensures
            final(self).wf(),
            final(self).program() == old(self).program(),
            final(self).names() == registered(old(self).names(), name@),
            final(self).descriptions() == (if find(old(self).names(), name@) >= 0 {
                old(self).descriptions().update(find(old(self).names(), name@), description@)
            } else {
                old(self).descriptions().push(description@)
            }),
            final(self).targets().len() == final(self).names().len(),
            forall|i: int|
                0 <= i < old(self).targets().len() && i != slot_index(old(self).names(), name@)
                    ==> final(self).targets()[i] == old(self).targets()[i],
            final(self).targets()[slot_index(old(self).names(), name@)] == target,
    {
        proof {
            lemma_find(self.names(), name@);
        }
        let binding = Binding { name: name.to_owned(), description: description.to_owned(), target };
        match self.find_index(name) {
            Some(k) => {
                self.flags.set(k, binding);
                assert(self.names() =~= old(self).names());
                assert(self.descriptions() =~= old(self).descriptions().update(k as int, description@));
                assert(self.targets() =~= old(self).targets().update(k as int, target));
            },
            None => {
                self.flags.push(binding);
                assert(self.names() =~= old(self).names().push(name@));
                assert(self.descriptions() =~= old(self).descriptions().push(description@));
                assert(self.targets() =~= old(self).targets().push(target));
            },
        }
    }

    /// Binds `filler` to the flag `--name`. A binding already under `name` is
    /// replaced; it keeps its place among the others.
    pub fn add<T: Filler<'a>>(&mut self, filler: T, name: &str, description: &str)
        requires
            old(self).wf(),
        ensures
            final(self).wf(),
            final(self).program() == old(self).program(),
            final(self).names() == registered(old(self).names(), name@),
            final(self).descriptions() == (if find(old(self).names(), name@) >= 0 {
                old(self).descriptions().update(find(old(self).names(), name@), description@)
            } else {
                old(self).descriptions().push(description@)
            }),
            final(self).targets().len() == final(self).names().len(),
            forall|i: int|
                0 <= i < old(self).targets().len() && i != slot_index(old(self).names(), name@)
                    ==> final(self).targets()[i] == old(self).targets()[i],
            match (final(self).targets()[slot_index(old(self).names(), name@)], filler.target_spec()) {
                (Target::Flag(x), Target::Flag(y)) => *x == *y && *final(x) == *final(y),
                (Target::Bool(x), Target::Bool(y)) => *x == *y && *final(x) == *final(y),
                (Target::Usize(x), Target::Usize(y)) => *x == *y && *final(x) == *final(y),
                (Target::I64(x), Target::I64(y)) => *x == *y && *final(x) == *final(y),
                (Target::U32(x), Target::U32(y)) => *x == *y && *final(x) == *final(y),
                (Target::U64(x), Target::U64(y)) => *x == *y && *final(x) == *final(y),
                (Target::I32(x), Target::I32(y)) => *x == *y && *final(x) == *final(y),
                (Target::Char(x), Target::Char(y)) => *x == *y && *final(x) == *final(y),
                (Target::Text(x), Target::Text(y)) => *x == *y && *final(x) == *final(y),
                _ => false,
            },
    {
        let target = filler.into_target();
        self.bind(target, name, description);
    }

    /// Binds `b` to the presence flag `--name`: given, it sets `b` to `true`
    /// and takes no value token.
    pub fn add_bool(&mut self, b: &'a mut bool, name: &str, description: &str)
        requires
            old(self).wf(),
        ensures
            final(self).wf(),
            final(self).program() == old(self).program(),
            final(self).names() == registered(old(self).names(), name@),
            final(self).descriptions() == (if find(old(self).names(), name@) >= 0 {
                old(self).descriptions().update(find(old(self).names(), name@), description@)
            } else {
                old(self).descriptions().push(description@)
            }),
            final(self).targets().len() == final(self).names().len(),
            forall|i: int|
                0 <= i < old(self).targets().len() && i != slot_index(old(self).names(), name@)
                    ==> final(self).targets()[i] == old(self).targets()[i],
            match final(self).targets()[slot_index(old(self).names(), name@)] {
                Target::Flag(x) => *x == *old(b) && *final(x) == *final(b),
                _ => false,
            },
    {
        self.bind(Target::Flag(b), name, description);
    }

    /// The usage line of the binding at position `i`.
    pub open spec fn line(&self, i: int) -> Seq<char> {
        usage_line(self.names()[i], self.slots()[i].label(), self.descriptions()[i])
    }

    /// The usage lines of the bindings at the positions `ord`, in that order.
    pub open spec fn listing(&self, ord: Seq<int>) -> Seq<char>
        decreases ord.len(),
    {
        if ord.len() == 0 {
            Seq::empty()
        } else {
            self.listing(ord.drop_last()) + self.line(ord.last())
        }
    }

    /// The positions of the bindings, ordered by name.
    fn sorted_indices(&self) -> (order: Vec<usize>)
        requires
            self.wf(),
        ensures
            sorted_order(self.names(), as_ints(order@)),
    {
        let n = self.flags.len();
        let ghost names = self.names();
        let mut order: Vec<usize> = Vec::new();
        let mut i: usize = 0;
        while i < n
            invariant
                i <= n,
                n == names.len(),
                n == self.flags@.len(),
                names == self.names(),
                distinct(names),
                order@.len() == i,
                forall|a: int| 0 <= a < order@.len() ==> #[trigger] order@[a] < i,
                forall|a: int, b: int|
                    0 <= a < b < order@.len() ==> lex_lt(
                        names[#[trigger] order@[a] as int],
                        names[#[trigger] order@[b] as int],
                    ),
                forall|x: usize| x < i ==> #[trigger] order@.contains(x),
            decreases n - i,
        {
            let x: &str = self.flags[i].name.as_str();
            assert(x@ == names[i as int]);
            let mut p: usize = 0;
            let mut go = true;
            while go && p < order.len()
                invariant
                    p <= order@.len(),
                    i < n,
                    n == names.len(),
                    n == self.flags@.len(),
                    names == self.names(),
                    x@ == names[i as int],
                    forall|a: int| 0 <= a < order@.len() ==> #[trigger] order@[a] < i,
                    forall|q: int| 0 <= q < p ==> lex_lt(names[#[trigger] order@[q] as int], x@),
                    !go ==> p < order@.len() && !lex_lt(names[order@[p as int] as int], x@),
                decreases order@.len() - p + (if go { 1int } else { 0int }),
            {
                let y = order[p];
                assert(self.flags@[y as int].name@ == names[y as int]);
                if text_lt(self.flags[y].name.as_str(), x) {
                    p = p + 1;
                } else {
                    go = false;
                }
            }
            proof {
                if p < order@.len() {
                    let y = names[order@[p as int] as int];
                    assert(order@[p as int] != i);
                    lemma_lex_total(y, x@);
                    assert forall|q: int| p <= q < order@.len() implies lex_lt(
                        x@,
                        names[#[trigger] order@[q] as int],
                    ) by {
                        if q > p {
                            lemma_lex_trans(x@, y, names[order@[q] as int]);
                        }
                    }
                }
            }
            let ghost prev = order@;
            order.insert(p, i);
            assert forall|a: int, b: int| 0 <= a < b < order@.len() implies lex_lt(
                names[#[trigger] order@[a] as int],
                names[#[trigger] order@[b] as int],
            ) by {
                if a < p && b > p {
                    assert(order@[b] == prev[b - 1]);
                } else if a == p && b > p {
                    assert(order@[b] == prev[b - 1]);
                } else if a > p {
                    assert(order@[a] == prev[a - 1]);
                    assert(order@[b] == prev[b - 1]);
                }
            }
            assert forall|a: int| 0 <= a < order@.len() implies #[trigger] order@[a] < i + 1 by {
                if a > p {
                    assert(order@[a] == prev[a - 1]);
                }
            }
            assert forall|x: usize| x < i + 1 implies #[trigger] order@.contains(x) by {
                if x == i {
                    assert(order@[p as int] == x);
                } else {
                    assert(prev.contains(x));
                    let w = choose|w: int| 0 <= w < prev.len() && prev[w] == x;
                    if w < p {
                        assert(order@[w] == x);
                    } else {
                        assert(order@[w + 1] == x);
                    }
                }
            }
            i = i + 1;
        }
        assert forall|x: int| 0 <= x < n implies #[trigger] as_ints(order@).contains(x) by {
            assert(order@.contains(x as usize));
            let w = choose|w: int| 0 <= w < order@.len() && order@[w] == x as usize;
            assert(as_ints(order@)[w] == x);
        }
        order
    }

    /// The usage text: the header, when a program name was given, then one
    /// line per binding, ordered by name.
    pub fn usage(&self) -> (r: String)
        requires
            self.wf(),
        ensures
            exists|ord: Seq<int>|
                sorted_order(self.names(), ord) && r@ == usage_header(self.program())
                    + self.listing(ord),
    {
        let order = self.sorted_indices();
        let ghost ord = as_ints(order@);
        let mut o = String::new();
        match &self.name {
            Some(p) => {
                o.append("usage:\n");
                o.append(p.as_str());
                o.append(" [flags] args...\n");
            },
            None => {},
        }
        assert(o@ =~= usage_header(self.program()) + self.listing(ord.take(0)));
        let mut k: usize = 0;
        while k < order.len()
            invariant
                k <= order@.len(),
                ord == as_ints(order@),
                sorted_order(self.names(), ord),
                self.names().len() == self.flags@.len(),
                o@ == usage_header(self.program()) + self.listing(ord.take(k as int)),
            decreases order@.len() - k,
        {
            let i = order[k];
            assert(ord[k as int] == i as int);
            let b = &self.flags[i];
            let ghost start = o@;
            o.append("\t--");
            o.append(b.name.as_str());
            let ghost named = o@;
            let w = b.name.as_str().unicode_len();
            let mut c = w;
            while c < NAME_WIDTH
                invariant
                    w <= c <= (if w <= NAME_WIDTH { NAME_WIDTH } else { w }),
                    o@ == named + spaces((c - w) as nat),
                decreases NAME_WIDTH - c,
            {
                proof {
                    reveal_strlit(" ");
                }
                o.append(" ");
                assert(o@ =~= named + spaces((c + 1 - w) as nat));
                c = c + 1;
            }
            assert(o@ =~= start + "\t--"@ + padded(b.name@));
            o.append(" (");
            o.append(b.target.type_label());
            o.append(") ");
            o.append(b.description.as_str());
            o.append("\n");
            proof {
                assert(self.names()[i as int] == b.name@);
                assert(self.descriptions()[i as int] == b.description@);
                assert(self.slots()[i as int] == b.target@);
                assert(ord.take(k + 1).drop_last() =~= ord.take(k as int));
                assert(ord.take(k + 1).last() == i as int);
            }
            assert(o@ =~= usage_header(self.program()) + self.listing(ord.take(k + 1)));
            k = k + 1;
        }
        assert(ord.take(order@.len() as int) =~= ord);
        o
    }

    /// Splits `arguments` into flag tokens and value tokens, then runs the
    /// converter of each flag, in the order the flags appear, over one shared
    /// cursor on the value tokens. Returns the value tokens that no converter
    /// took. Stops at the first unknown flag or failed converter; what earlier
    /// flags wrote stays written.
    pub fn parse(&mut self, arguments: &[&str]) -> (r: Result<Vec<String>, ParseFailure>)
        requires
            old(self).wf(),
        ensures
            final(self).wf(),
            final(self).program() == old(self).program(),
            final(self).names() == old(self).names(),
            final(self).descriptions() == old(self).descriptions(),
            final(self).slots() == parse_spec(old(self).names(), old(self).slots(), texts(arguments@)).0,
            reports(
                r,
                parse_spec(old(self).names(), old(self).slots(), texts(arguments@)).1,
                value_tokens(texts(arguments@)),
            ),
            final(self).targets().len() == old(self).targets().len(),
            forall|i: int|
                0 <= i < old(self).targets().len() ==> 
                    match (#[trigger] old(self).targets()[i], final(self).targets()[i]) {
                        (Target::Flag(x), Target::Flag(y)) => *final(x) == *final(y),
                        (Target::Bool(x), Target::Bool(y)) => *final(x) == *final(y),
                        (Target::Usize(x), Target::Usize(y)) => *final(x) == *final(y),
                        (Target::I64(x), Target::I64(y)) => *final(x) == *final(y),
                        (Target::U32(x), Target::U32(y)) => *final(x) == *final(y),
                        (Target::U64(x), Target::U64(y)) => *final(x) == *final(y),
                        (Target::I32(x), Target::I32(y)) => *final(x) == *final(y),
                        (Target::Char(x), Target::Char(y)) => *final(x) == *final(y),
                        (Target::Text(x), Target::Text(y)) => *final(x) == *final(y),
                        _ => false,
                    },
    {
        let ghost toks = texts(arguments@);
        let mut flags: Vec<&str> = Vec::new();
        let mut values: Vec<&str> = Vec::new();
        let mut i: usize = 0;
        while i < arguments.len()
            invariant
                i <= arguments@.len(),
                toks == texts(arguments@),
                texts(flags@) == flag_tokens(toks.take(i as int)),
                texts(values@) == value_tokens(toks.take(i as int)),
            decreases arguments@.len() - i,
        {
            let a: &str = arguments[i];
            let n = a.unicode_len();
            proof {
                assert(toks.take(i + 1).drop_last() =~= toks.take(i as int));
                assert(toks.take(i + 1).last() == a@);
            }
            if n >= 2 && a.get_char(0) == '-' && a.get_char(1) == '-' {
                let name = a.substring_char(2, n);
                flags.push(name);
                assert(name@ =~= a@.skip(2));
                assert(texts(flags@) =~= flag_tokens(toks.take(i + 1)));
            } else {
                values.push(a);
                assert(texts(values@) =~= value_tokens(toks.take(i + 1)));
            }
            i = i + 1;
        }
        assert(toks.take(arguments@.len() as int) =~= toks);
        let ghost fl = texts(flags@);
        let ghost vals = texts(values@);
        let ghost names = self.names();
        let ghost goal = run(names, old(self).slots(), fl, vals, 0, 0);
        assert(goal == parse_spec(old(self).names(), old(self).slots(), toks));
        assert(vals == value_tokens(toks));
        let mut pos: usize = 0;
        let mut j: usize = 0;
        while j < flags.len()
            invariant
                j <= flags@.len(),
                pos <= values@.len(),
                fl == texts(flags@),
                vals == texts(values@),
                names == old(self).names(),
                self.wf(),
                self.names() == old(self).names(),
                self.descriptions() == old(self).descriptions(),
                self.program() == old(self).program(),
                self.targets().len() == old(self).targets().len(),
                self.slots().len() == self.targets().len(),
                run(names, self.slots(), fl, vals, j as nat, pos as nat) == goal,
                goal == parse_spec(old(self).names(), old(self).slots(), texts(arguments@)),
                vals == value_tokens(texts(arguments@)),
                forall|i: int|
                    0 <= i < old(self).targets().len() ==> 
                        match (#[trigger] old(self).targets()[i], self.targets()[i]) {
                            (Target::Flag(x), Target::Flag(y)) => *final(x) == *final(y),
                            (Target::Bool(x), Target::Bool(y)) => *final(x) == *final(y),
                            (Target::Usize(x), Target::Usize(y)) => *final(x) == *final(y),
                            (Target::I64(x), Target::I64(y)) => *final(x) == *final(y),
                            (Target::U32(x), Target::U32(y)) => *final(x) == *final(y),
                            (Target::U64(x), Target::U64(y)) => *final(x) == *final(y),
                            (Target::I32(x), Target::I32(y)) => *final(x) == *final(y),
                            (Target::Char(x), Target::Char(y)) => *final(x) == *final(y),
                            (Target::Text(x), Target::Text(y)) => *final(x) == *final(y),
                            _ => false,
                        },
            decreases flags@.len() - j,
        {
            let f: &str = flags[j];
            assert(f@ == fl[j as int]);
            match self.find_index(f) {
                None => {
                    assert(run(names, self.slots(), fl, vals, j as nat, pos as nat) == (
                        self.slots(),
                        Outcome::UnknownFlag(fl[j as int]),
                    ));
                    return Err(ParseFailure::UnknownFlag(f.to_owned()));
                },
                Some(k) => {
                    proof {
                        lemma_find(self.names(), f@);
                    }
                    let ghost before = *self;
                    assert(before.slots()[k as int] == before.flags@[k as int].target@);
                    assert(find(names, fl[j as int]) == k);
                    let res = self.flags[k].target.fill(&values, pos);
                    assert(self.targets() =~= before.targets().update(k as int, self.flags@[k as int].target));
                    assert(self.names() =~= before.names());
                    assert(self.descriptions() =~= before.descriptions());
                    match res {
                        Ok(p) => {
                            let ghost step = before.slots()[k as int].fill(vals, pos as nat);
                            assert(step.1 == Fill::Took(p as nat));
                            assert(self.slots() =~= before.slots().update(
                                k as int,
                                before.slots()[k as int].fill(vals, pos as nat).0,
                            ));
                            assert(run(names, before.slots(), fl, vals, j as nat, pos as nat)
                                == run(names, self.slots(), fl, vals, j as nat + 1, p as nat));
                            pos = p;
                        },
                        Err(e) => {
                            assert(self.slots() =~= before.slots());
                            return Err(ParseFailure::Failed(f.to_owned(), e));
                        },
                    }
                },
            }
            j = j + 1;
        }
        let mut rest: Vec<String> = Vec::new();
        let mut q: usize = pos;
        while q < values.len()
            invariant
                pos <= q <= values@.len(),
                vals == texts(values@),
                vals.len() == values@.len(),
                rest@.len() == q - pos,
                forall|k: int| 0 <= k < rest@.len() ==> #[trigger] rest@[k]@ == vals[pos + k],
            decreases values@.len() - q,
        {
            let v = values[q].to_owned();
            assert(v@ == vals[q as int]);
            rest.push(v);
            q = q + 1;
        }
        assert(strings(rest@) =~= vals.skip(pos as int)) by {
            assert forall|k: int| 0 <= k < rest@.len() implies #[trigger] strings(rest@)[k]
                == vals.skip(pos as int)[k] by {
                assert(rest@[k]@ == vals[pos + k]);
            }
        }
        Ok(rest)
    }
}

} // verus!
