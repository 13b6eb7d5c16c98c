use vstd::prelude::*;
use crate::ast::{
    binders_view, expressions_view, statements_view, Binder, BinderView, Expression as Sugar, ExpressionView,
    Statement, StatementView,
};
use crate::ast::copy_expression;
use crate::marks::{assign, bits, cleared, count, duplicate, marked, max_marks, Marks};
use crate::mir::{
    declarations_view, find_upto, lemma_find_stays, Declaration, DeclarationView, Expression,
};

verus! {

/// A program after its names have been resolved: the symbols, which of
/// them are names of declarations, the constants, and the declarations.
#[derive(Debug)]
pub struct Module {
    /// The text of each symbol.
    pub symbols: Vec<String>,
    /// For each symbol, whether it is the name of a declaration.
    pub names: Marks,
    /// The names of what is imported.
    pub imports: Vec<String>,
    /// The strings.
    pub strings: Vec<String>,
    /// The numbers.
    pub numbers: Vec<u64>,
    /// The declarations.
    pub declarations: Vec<Declaration>,
}

/// Mathematical content of a [`Module`].
pub struct ModuleView {
    pub symbols: Seq<Seq<char>>,
    pub names: Seq<bool>,
    pub imports: Seq<Seq<char>>,
    pub strings: Seq<Seq<char>>,
    pub numbers: Seq<u64>,
    pub declarations: Seq<DeclarationView>,
}

/// The texts of a list of strings.
pub open spec fn texts(list: Seq<String>) -> Seq<Seq<char>> {
    Seq::new(list.len(), |i: int| list[i]@)
}

impl View for Module {
    type V = ModuleView;

    open spec fn view(&self) -> ModuleView {
        ModuleView {
            symbols: texts(self.symbols@),
            names: bits(self.names),
            imports: texts(self.imports@),
            strings: texts(self.strings@),
            numbers: self.numbers@,
            declarations: declarations_view(self.declarations@),
        }
    }
}

/// The place of the first of the first `upto` items of `list` that equals `item`.
pub open spec fn place_upto<T>(list: Seq<T>, item: T, upto: int) -> Option<int>
    decreases upto,
{
    if upto <= 0 {
        None
    } else {
        match place_upto(list, item, upto - 1) {
            Some(at) => Some(at),
            None => if list[upto - 1] == item {
                Some(upto - 1)
            } else {
                None
            },
        }
    }
}

/// The place of the first item of `list` that equals `item`.
pub open spec fn place<T>(list: Seq<T>, item: T) -> Option<int> {
    place_upto(list, item, list.len() as int)
}

/// A place that was found stays the place when more items are looked at.
pub proof fn lemma_place_stays<T>(list: Seq<T>, item: T, found: int, upto: int)
    requires
        place_upto(list, item, found) is Some,
        found <= upto,
    ensures
        place_upto(list, item, upto) == place_upto(list, item, found),
    decreases upto - found,
{
    if found < upto {
        lemma_place_stays(list, item, found, upto - 1);
    }
}

/// The place of `item` in `list` once it is there: where it is, or at the
/// end, where it is put if it is not there yet.
pub open spec fn interned<T>(list: Seq<T>, item: T) -> (Seq<T>, int) {
    match place(list, item) {
        Some(at) => (list, at),
        None => (list.push(item), list.len() as int),
    }
}

/// The symbols with `text` as the text of symbol `n`; symbols up to `n`
/// that were not there before have the empty text.
pub open spec fn with_symbol(symbols: Seq<Seq<char>>, n: int, text: Seq<char>) -> Seq<Seq<char>> {
    Seq::new(
        if symbols.len() <= n {
            (n + 1) as nat
        } else {
            symbols.len()
        },
        |i: int|
            if i == n {
                text
            } else if i < symbols.len() {
                symbols[i]
            } else {
                Seq::empty()
            },
    )
}

/// For each of `n` symbols, whether `decl` provides it: as its name or as a
/// parameter.
pub open spec fn provided_bits(n: nat, decl: DeclarationView) -> Seq<bool> {
    Seq::new(n, |i: int| decl.procedure.contains(i as usize))
}

/// For each of `n` symbols, whether the call of `decl` asks for it.
pub open spec fn required_bits(n: nat, decl: DeclarationView) -> Seq<bool> {
    Seq::new(n, |i: int| decl.call.contains(Expression::Symbol(i as usize)))
}

/// For each of `n` symbols, whether it is the name of a declaration.
pub open spec fn name_bits(n: nat, declarations: Seq<DeclarationView>) -> Seq<bool> {
    Seq::new(
        n,
        |i: int|
            exists|k: int|
                0 <= k < declarations.len() && (#[trigger] declarations[k]).procedure.len() > 0
                    && declarations[k].procedure[0] == i,
    )
}

/// Every symbol that `decl` mentions is one of `n` symbols, and it has a name.
pub open spec fn declaration_within(decl: DeclarationView, n: nat) -> bool {
    &&& decl.procedure.len() > 0
    &&& forall|k: int| 0 <= k < decl.procedure.len() ==> (#[trigger] decl.procedure[k]) < n
    &&& forall|k: int|
        0 <= k < decl.call.len() ==> ((#[trigger] decl.call[k]) matches Expression::Symbol(s) ==> s < n)
}

impl ModuleView {
    /// The symbols can be marked, and every declaration has a name and
    /// mentions only symbols that exist.
    pub open spec fn wf(self) -> bool {
        &&& self.symbols.len() <= max_marks()
        &&& forall|d: int|
            0 <= d < self.declarations.len() ==> declaration_within(
                #[trigger] self.declarations[d],
                self.symbols.len(),
            )
    }

    /// The place of the declaration named `name`.
    pub open spec fn find(self, name: usize) -> Option<int> {
        find_upto(self.declarations, name, self.declarations.len() as int)
    }
}

/// The place of the first item of `list` that is `item`, if there is one.
fn position_text(list: &Vec<String>, item: &String) -> (r: Option<usize>)
    ensures
        match r {
            Some(at) => place(texts(list@), item@) == Some(at as int) && at < list@.len(),
            None => place(texts(list@), item@) is None,
        },
{
    let ghost all = texts(list@);
    let mut i: usize = 0;
    while i < list.len()
        invariant
            i <= list.len(),
            all == texts(list@),
            place_upto(all, item@, i as int) is None,
        decreases list.len() - i,
    {
        assert(all[i as int] == list@[i as int]@);
        if list[i] == *item {
            proof {
                lemma_place_stays(all, item@, i + 1, all.len() as int);
            }
            return Some(i);
        }
        i += 1;
    }
    None
}

/// The place of the first item of `list` that is `item`, if there is one.
fn position_number(list: &Vec<u64>, item: u64) -> (r: Option<usize>)
    ensures
        match r {
            Some(at) => place(list@, item) == Some(at as int) && at < list@.len(),
            None => place(list@, item) is None,
        },
{
    let mut i: usize = 0;
    while i < list.len()
        invariant
            i <= list.len(),
            place_upto(list@, item, i as int) is None,
        decreases list.len() - i,
    {
        if list[i] == item {
            proof {
                lemma_place_stays(list@, item, i + 1, list@.len() as int);
            }
            return Some(i);
        }
        i += 1;
    }
    None
}

/// The place of `item` in `list`, where it is put at the end if it is not there.
fn intern_text(list: &mut Vec<String>, item: String) -> (at: usize)
    ensures
        (texts(final(list)@), at as int) == interned(texts(old(list)@), item@),
{
    match position_text(list, &item) {
        Some(at) => at,
        None => {
            let ghost before = texts(list@);
            list.push(item);
            assert(texts(list@) =~= before.push(item@));
            list.len() - 1
        },
    }
}

impl Module {
    /// A module with nothing in it.
    pub fn new() -> (r: Module)
        ensures
            r@ == (ModuleView {
                symbols: Seq::empty(),
                names: Seq::empty(),
                imports: Seq::empty(),
                strings: Seq::empty(),
                numbers: Seq::empty(),
                declarations: Seq::empty(),
            }),
    {
        let r = Module {
            symbols: Vec::new(),
            names: cleared(0),
            imports: Vec::new(),
            strings: Vec::new(),
            numbers: Vec::new(),
            declarations: Vec::new(),
        };
        assert(r@.symbols =~= Seq::empty());
        assert(r@.names =~= Seq::empty());
        assert(r@.imports =~= Seq::empty());
        assert(r@.strings =~= Seq::empty());
        assert(r@.declarations =~= Seq::empty());
        r
    }

    /// Gives symbol `n` the text `s`, and returns `n`.
    pub fn symbol(&mut self, n: usize, s: String) -> (r: usize)
        requires
            n < usize::MAX,
        ensures
            r == n,
            final(self)@ == (ModuleView { symbols: with_symbol(old(self)@.symbols, n as int, s@), ..old(self)@ }),
    {
        let ghost before = texts(self.symbols@);
        while self.symbols.len() <= n
            invariant
                before.len() <= self.symbols@.len(),
                self.symbols@.len() <= n + 1 || self.symbols@.len() == before.len(),
                forall|i: int| 0 <= i < before.len() ==> self.symbols@[i]@ == before[i],
                forall|i: int| before.len() <= i < self.symbols@.len() ==> self.symbols@[i]@ == Seq::<char>::empty(),
                self.names == old(self).names,
                self.imports == old(self).imports,
                self.strings == old(self).strings,
                self.numbers == old(self).numbers,
                self.declarations == old(self).declarations,
            decreases n + 1 - self.symbols@.len(),
        {
            self.symbols.push(String::default());
        }
        self.symbols[n] = s;
        assert(texts(self.symbols@) =~= with_symbol(before, n as int, s@));
        n
    }

    /// For each symbol, whether `decl` provides it.
    pub fn provided_mask(&self, decl: &Declaration) -> (mask: Marks)
        requires
            self@.symbols.len() <= max_marks(),
            forall|k: int| 0 <= k < decl@.procedure.len() ==> (#[trigger] decl@.procedure[k]) < self@.symbols.len(),
        ensures
            bits(mask) == provided_bits(self@.symbols.len(), decl@),
    {
        let n = self.symbols.len();
        let mut mask = cleared(n);
        let mut i: usize = 0;
        while i < decl.procedure.len()
            invariant
                i <= decl.procedure.len(),
                n == self@.symbols.len(),
                forall|k: int| 0 <= k < decl@.procedure.len() ==> (#[trigger] decl@.procedure[k]) < n,
                bits(mask).len() == n,
                forall|j: int|
                    0 <= j < n ==> (#[trigger] bits(mask)[j] <==> decl@.procedure.take(i as int).contains(j as usize)),
            decreases decl.procedure.len() - i,
        {
            let ghost before = bits(mask);
            assert(decl@.procedure[i as int] < n);
            assign(&mut mask, decl.procedure[i], true);
            proof {
                let head = decl@.procedure.take(i as int);
                let more = decl@.procedure.take(i + 1);
                assert forall|j: int| 0 <= j < n implies (#[trigger] bits(mask)[j] <==> more.contains(j as usize)) by {
                    if head.contains(j as usize) {
                        let k = choose|k: int| 0 <= k < head.len() && head[k] == j as usize;
                        assert(more[k] == j as usize);
                    }
                    if more.contains(j as usize) {
                        let k = choose|k: int| 0 <= k < more.len() && more[k] == j as usize;
                        if k < i {
                            assert(head[k] == j as usize);
                        }
                    }
                    if j == decl@.procedure[i as int] {
                        assert(more[i as int] == j as usize);
                    }
                }
            }
            i += 1;
        }
        assert(decl@.procedure.take(decl@.procedure.len() as int) =~= decl@.procedure);
        assert(bits(mask) =~= provided_bits(n as nat, decl@));
        mask
    }

    /// For each symbol, whether the call of `decl` asks for it.
    pub fn required_mask(&self, decl: &Declaration) -> (mask: Marks)
        requires
            self@.symbols.len() <= max_marks(),
            forall|k: int|
                0 <= k < decl@.call.len() ==> ((#[trigger] decl@.call[k]) matches Expression::Symbol(s) ==> s
                    < self@.symbols.len()),
        ensures
            bits(mask) == required_bits(self@.symbols.len(), decl@),
    {
        let n = self.symbols.len();
        let mut mask = cleared(n);
        let mut i: usize = 0;
        while i < decl.call.len()
            invariant
                i <= decl.call.len(),
                n == self@.symbols.len(),
                forall|k: int|
                    0 <= k < decl@.call.len() ==> ((#[trigger] decl@.call[k]) matches Expression::Symbol(s) ==> s
                        < n),
                bits(mask).len() == n,
                forall|j: int|
                    0 <= j < n ==> (#[trigger] bits(mask)[j] <==> decl@.call.take(i as int).contains(
                        Expression::Symbol(j as usize),
                    )),
            decreases decl.call.len() - i,
        {
            let ghost head = decl@.call.take(i as int);
            let ghost more = decl@.call.take(i + 1);
            assert(decl@.call[i as int] == decl.call@[i as int]);
            if let Expression::Symbol(s) = decl.call[i] {
                assign(&mut mask, s, true);
            }
            proof {
                assert forall|j: int| 0 <= j < n implies (#[trigger] bits(mask)[j] <==> more.contains(
                    Expression::Symbol(j as usize),
                )) by {
                    let wanted = Expression::Symbol(j as usize);
                    if head.contains(wanted) {
                        let k = choose|k: int| 0 <= k < head.len() && head[k] == wanted;
                        assert(more[k] == wanted);
                    }
                    if more.contains(wanted) {
                        let k = choose|k: int| 0 <= k < more.len() && more[k] == wanted;
                        if k < i {
                            assert(head[k] == wanted);
                        }
                    }
                    if decl@.call[i as int] == wanted {
                        assert(more[i as int] == wanted);
                    }
                }
            }
            i += 1;
        }
        assert(decl@.call.take(decl@.call.len() as int) =~= decl@.call);
        assert(bits(mask) =~= required_bits(n as nat, decl@));
        mask
    }

    /// The number that stands for `expr` in a tail call: a bound name is a
    /// symbol, an unbound name an import, and strings and numbers are looked
    /// up in the pool of constants, to which they are added if they are new.
    pub fn convert(&mut self, expr: Sugar) -> (r: Expression)
        requires
            match expr@ {
                ExpressionView::Reference(Some(n), _) => n < usize::MAX,
                ExpressionView::Reference(None, _) => true,
                ExpressionView::Literal(_) => true,
                ExpressionView::Number(_) => true,
                _ => false,
            },
        ensures
            match expr@ {
                ExpressionView::Reference(Some(n), text) => r == Expression::Symbol(n) && final(self)@ == (
                ModuleView { symbols: with_symbol(old(self)@.symbols, n as int, text), ..old(self)@ }),
                ExpressionView::Reference(None, text) => r == Expression::Import(
                    interned(old(self)@.imports, text).1 as usize,
                ) && final(self)@ == (ModuleView {
                    imports: interned(old(self)@.imports, text).0,
                    ..old(self)@
                }),
                ExpressionView::Literal(text) => r == Expression::Literal(
                    interned(old(self)@.strings, text).1 as usize,
                ) && final(self)@ == (ModuleView {
                    strings: interned(old(self)@.strings, text).0,
                    ..old(self)@
                }),
                ExpressionView::Number(n) => r == Expression::Number(interned(old(self)@.numbers, n).1 as usize)
                    && final(self)@ == (ModuleView { numbers: interned(old(self)@.numbers, n).0, ..old(self)@ }),
                _ => true,
            },
    {
        match expr {
            Sugar::Reference(Some(n), s) => Expression::Symbol(self.symbol(n, s)),
            Sugar::Reference(None, s) => Expression::Import(intern_text(&mut self.imports, s)),
            Sugar::Literal(s) => Expression::Literal(intern_text(&mut self.strings, s)),
            Sugar::Number(n) => {
                match position_number(&self.numbers, n) {
                    Some(at) => Expression::Number(at),
                    None => {
                        self.numbers.push(n);
                        Expression::Number(self.numbers.len() - 1)
                    },
                }
            },
            _ => Expression::Number(0),
        }
    }

    /// The declaration named `name`, if there is one.
    pub fn declaration(&self, name: usize) -> (r: Option<&Declaration>)
        ensures
            match r {
                Some(decl) => self@.find(name) matches Some(at) && decl@ == self@.declarations[at],
                None => self@.find(name) is None,
            },
    {
        let mut i: usize = 0;
        while i < self.declarations.len()
            invariant
                i <= self.declarations.len(),
                find_upto(self@.declarations, name, i as int) is None,
            decreases self.declarations.len() - i,
        {
            let decl = &self.declarations[i];
            assert(self@.declarations[i as int] == decl@);
            if decl.procedure.len() > 0 && decl.procedure[0] == name {
                proof {
                    lemma_find_stays(self@.declarations, name, i + 1, self.declarations.len() as int);
                }
                return Some(decl);
            }
            i += 1;
        }
        None
    }

    /// Whether `symbol` is marked as the name of a declaration.
    pub fn is_name(&self, symbol: usize) -> (r: bool)
        ensures
            r == (symbol < self@.names.len() && self@.names[symbol as int]),
    {
        symbol < count(&self.names) && marked(&self.names, symbol)
    }

    /// Marks the symbols that are names of declarations.
    pub fn find_names(&mut self)
        requires
            old(self)@.wf(),
        ensures
            final(self)@ == (ModuleView {
                names: name_bits(old(self)@.symbols.len(), old(self)@.declarations),
                ..old(self)@
            }),
    {
        let n = self.symbols.len();
        let ghost decls = self@.declarations;
        let mut names = cleared(n);
        let mut d: usize = 0;
        while d < self.declarations.len()
            invariant
                d <= self.declarations.len(),
                *self == *old(self),
                self@.wf(),
                decls == self@.declarations,
                n == self@.symbols.len(),
                bits(names).len() == n,
                forall|i: int|
                    0 <= i < n ==> (#[trigger] bits(names)[i] <==> exists|k: int|
                        0 <= k < d && (#[trigger] decls[k]).procedure.len() > 0 && decls[k].procedure[0] == i),
            decreases self.declarations.len() - d,
        {
            let decl = &self.declarations[d];
            assert(decls[d as int] == decl@);
            assert(declaration_within(decls[d as int], n as nat));
            let ghost before = bits(names);
            assign(&mut names, decl.procedure[0], true);
            proof {
                assert forall|i: int| 0 <= i < n implies (#[trigger] bits(names)[i] <==> exists|k: int|
                    0 <= k < d + 1 && (#[trigger] decls[k]).procedure.len() > 0 && decls[k].procedure[0] == i) by {
                    if exists|k: int|
                        0 <= k < d + 1 && (#[trigger] decls[k]).procedure.len() > 0 && decls[k].procedure[0] == i {
                        let k = choose|k: int|
                            0 <= k < d + 1 && (#[trigger] decls[k]).procedure.len() > 0 && decls[k].procedure[0]
                                == i;
                        if k < d {
                            assert(before[i]);
                        }
                    }
                    if before[i] {
                        let k = choose|k: int|
                            0 <= k < d && (#[trigger] decls[k]).procedure.len() > 0 && decls[k].procedure[0] == i;
                        assert(decls[k].procedure[0] == i);
                    }
                    if i == decl@.procedure[0] {
                        assert(decls[d as int].procedure[0] == i);
                    }
                }
            }
            d += 1;
        }
        assert(bits(names) =~= name_bits(n as nat, decls));
        self.names = names;
    }
}

/// The bits set in `a` or in `b`.
pub open spec fn either(a: Seq<bool>, b: Seq<bool>) -> Seq<bool> {
    Seq::new(a.len(), |i: int| a[i] || b[i])
}

/// The bits set in `a` and in `b`.
pub open spec fn both(a: Seq<bool>, b: Seq<bool>) -> Seq<bool> {
    Seq::new(a.len(), |i: int| a[i] && b[i])
}

/// The bits set in `a` and not in `b`.
pub open spec fn without(a: Seq<bool>, b: Seq<bool>) -> Seq<bool> {
    Seq::new(a.len(), |i: int| a[i] && !b[i])
}

/// The number of cleared bits among the first `upto` bits of `mask`.
pub open spec fn unset(mask: Seq<bool>, upto: int) -> nat
    decreases upto,
{
    if upto <= 0 {
        0
    } else {
        unset(mask, upto - 1) + if mask[upto - 1] {
            0nat
        } else {
            1nat
        }
    }
}

/// A mask that holds all of another has no more cleared bits.
pub proof fn lemma_unset_holds(small: Seq<bool>, big: Seq<bool>, upto: int)
    requires
        0 <= upto <= small.len(),
        small.len() == big.len(),
        forall|i: int| 0 <= i < small.len() && small[i] ==> big[i],
    ensures
        unset(big, upto) <= unset(small, upto),
    decreases upto,
{
    if upto > 0 {
        lemma_unset_holds(small, big, upto - 1);
    }
}

/// A mask that holds all of another and one bit more has fewer cleared bits.
pub proof fn lemma_unset_shrinks(small: Seq<bool>, big: Seq<bool>, upto: int, extra: int)
    requires
        0 <= extra < upto <= small.len(),
        small.len() == big.len(),
        forall|i: int| 0 <= i < small.len() && small[i] ==> big[i],
        !small[extra],
        big[extra],
    ensures
        unset(big, upto) < unset(small, upto),
    decreases upto,
{
    if upto - 1 == extra {
        lemma_unset_holds(small, big, upto - 1);
    } else {
        lemma_unset_shrinks(small, big, upto - 1, extra);
    }
}

/// What a declaration can draw on: what it provides itself and what is
/// provided around it.
pub open spec fn context_of(n: nat, decl: DeclarationView, provided: Seq<bool>) -> Seq<bool> {
    either(provided_bits(n, decl), provided)
}

/// The symbols that `decl` has to capture, given what is provided around
/// it: those that its call asks for and that are not at hand. Where such a
/// symbol is the name of a declaration, the symbols that this declaration
/// has to capture in the same place stand for it.
pub open spec fn closure_of(m: ModuleView, decl: DeclarationView, provided: Seq<bool>) -> Seq<bool>
    decreases unset(context_of(m.symbols.len(), decl, provided), m.symbols.len() as int), m.symbols.len() + 1,
{
    let n = m.symbols.len();
    let context = context_of(n, decl, provided);
    closure_over(m, without(required_bits(n, decl), context), context, n as int)
}

/// The symbols to capture once the names among the first `upto` symbols of
/// the `wanted` ones have been replaced by what their declarations capture.
pub open spec fn closure_over(m: ModuleView, wanted: Seq<bool>, context: Seq<bool>, upto: int) -> Seq<bool>
    decreases unset(context, m.symbols.len() as int), upto,
{
    let n = m.symbols.len();
    if upto <= 0 {
        wanted
    } else {
        let before = closure_over(m, wanted, context, upto - 1);
        if upto <= n && context.len() == n && wanted[upto - 1] && m.names[upto - 1] && !context[upto - 1] {
            match m.find((upto - 1) as usize) {
                Some(at) => {
                    let decl = m.declarations[at];
                    if decl.procedure.contains((upto - 1) as usize) {
                        proof {
                            assert(provided_bits(n, decl)[upto - 1]);
                            lemma_unset_shrinks(context, context_of(n, decl, context), n as int, upto - 1);
                        }
                        either(before.update(upto - 1, false), closure_of(m, decl, context))
                    } else {
                        before
                    }
                },
                None => before,
            }
        } else {
            before
        }
    }
}

/// What is captured has the length of the symbols.
pub proof fn lemma_closure_len(m: ModuleView, decl: DeclarationView, provided: Seq<bool>)
    ensures
        closure_of(m, decl, provided).len() == m.symbols.len(),
    decreases unset(context_of(m.symbols.len(), decl, provided), m.symbols.len() as int), m.symbols.len() + 1,
{
    let n = m.symbols.len();
    let context = context_of(n, decl, provided);
    lemma_closure_over_len(m, without(required_bits(n, decl), context), context, n as int);
}

/// What is captured keeps the length of what is wanted.
pub proof fn lemma_closure_over_len(m: ModuleView, wanted: Seq<bool>, context: Seq<bool>, upto: int)
    requires
        wanted.len() == m.symbols.len(),
    ensures
        closure_over(m, wanted, context, upto).len() == m.symbols.len(),
    decreases unset(context, m.symbols.len() as int), upto,
{
    let n = m.symbols.len();
    if upto > 0 {
        lemma_closure_over_len(m, wanted, context, upto - 1);
        if upto <= n && context.len() == n && wanted[upto - 1] && m.names[upto - 1] && !context[upto - 1] {
            match m.find((upto - 1) as usize) {
                Some(at) => {
                    let decl = m.declarations[at];
                    if decl.procedure.contains((upto - 1) as usize) {
                        assert(provided_bits(n, decl)[upto - 1]);
                        lemma_unset_shrinks(context, context_of(n, decl, context), n as int, upto - 1);
                        lemma_closure_len(m, decl, context);
                    }
                },
                None => {},
            }
        }
    }
}

/// No declaration captures the name of a declaration: names are replaced
/// by what their declarations capture.
pub proof fn lemma_closure_nameless(m: ModuleView, decl: DeclarationView, provided: Seq<bool>)
    requires
        m.wf(),
        m.named(),
        provided.len() == m.symbols.len(),
    ensures
        forall|i: int|
            0 <= i < m.symbols.len() && #[trigger] closure_of(m, decl, provided)[i] ==> !m.names[i],
    decreases unset(context_of(m.symbols.len(), decl, provided), m.symbols.len() as int), m.symbols.len() + 1,
{
    let n = m.symbols.len();
    let context = context_of(n, decl, provided);
    lemma_closure_over_nameless(m, without(required_bits(n, decl), context), context, n as int);
}

/// Of the names that are wanted, only those not yet replaced are captured.
pub proof fn lemma_closure_over_nameless(m: ModuleView, wanted: Seq<bool>, context: Seq<bool>, upto: int)
    requires
        m.wf(),
        m.named(),
        wanted.len() == m.symbols.len(),
        context.len() == m.symbols.len(),
        forall|i: int| 0 <= i < wanted.len() && wanted[i] ==> !context[i],
        0 <= upto <= m.symbols.len(),
    ensures
        closure_over(m, wanted, context, upto).len() == m.symbols.len(),
        forall|i: int|
            0 <= i < m.symbols.len() && #[trigger] closure_over(m, wanted, context, upto)[i] && m.names[i] ==> upto
                <= i && wanted[i],
    decreases unset(context, m.symbols.len() as int), upto,
{
    let n = m.symbols.len();
    lemma_closure_over_len(m, wanted, context, upto);
    if upto > 0 {
        lemma_closure_over_nameless(m, wanted, context, upto - 1);
        let before = closure_over(m, wanted, context, upto - 1);
        let name = upto - 1;
        if wanted[name] && m.names[name] {
            assert(m.names == name_bits(n, m.declarations));
            let k = choose|k: int|
                0 <= k < m.declarations.len() && (#[trigger] m.declarations[k]).procedure.len() > 0
                    && m.declarations[k].procedure[0] == name;
            lemma_found(m.declarations, name as usize, m.declarations.len() as int);
            let at = m.find(name as usize).unwrap();
            let inner = m.declarations[at];
            assert(inner.procedure[0] == name);
            assert(inner.procedure.contains(name as usize));
            assert(provided_bits(n, inner)[name]);
            lemma_unset_shrinks(context, context_of(n, inner, context), n as int, name);
            lemma_closure_nameless(m, inner, context);
            lemma_closure_len(m, inner, context);
            let deeper = closure_of(m, inner, context);
            let now = closure_over(m, wanted, context, upto);
            assert(now == either(before.update(name, false), deeper));
            assert forall|i: int| 0 <= i < n && #[trigger] now[i] && m.names[i] implies upto <= i && wanted[i] by {
                if deeper[i] {
                    assert(!m.names[i]);
                }
                if i != name {
                    assert(before[i]);
                }
            }
        } else {
            assert(closure_over(m, wanted, context, upto) == before);
        }
    }
}

/// The places of the bits that are set, in rising order.
pub open spec fn set_places(mask: Seq<bool>, upto: int) -> Seq<usize>
    decreases upto,
{
    if upto <= 0 {
        Seq::empty()
    } else if mask[upto - 1] {
        set_places(mask, upto - 1).push((upto - 1) as usize)
    } else {
        set_places(mask, upto - 1)
    }
}

impl ModuleView {
    /// The names are marked as the declarations say.
    pub open spec fn named(self) -> bool {
        self.names == name_bits(self.symbols.len(), self.declarations)
    }
}

/// A declaration that is found is named as asked.
pub proof fn lemma_found(declarations: Seq<DeclarationView>, name: usize, upto: int)
    requires
        0 <= upto <= declarations.len(),
    ensures
        find_upto(declarations, name, upto) matches Some(at) ==> 0 <= at < upto && declarations[at].procedure.len()
            > 0 && declarations[at].procedure[0] == name,
        find_upto(declarations, name, upto) is None ==> forall|k: int|
            0 <= k < upto ==> !((#[trigger] declarations[k]).procedure.len() > 0 && declarations[k].procedure[0]
                == name),
    decreases upto,
{
    if upto > 0 {
        lemma_found(declarations, name, upto - 1);
    }
}

/// Sets in `a` the bits that are set in `b`.
fn unite(a: &mut Marks, b: &Marks)
    requires
        bits(*old(a)).len() == bits(*b).len(),
    ensures
        bits(*final(a)) == either(bits(*old(a)), bits(*b)),
{
    let n = count(a);
    let ghost start = bits(*a);
    let mut i: usize = 0;
    while i < n
        invariant
            i <= n,
            n == start.len(),
            n == bits(*b).len(),
            bits(*a).len() == n,
            forall|j: int| 0 <= j < i ==> #[trigger] bits(*a)[j] == (start[j] || bits(*b)[j]),
            forall|j: int| i <= j < n ==> #[trigger] bits(*a)[j] == start[j],
        decreases n - i,
    {
        let ghost before = bits(*a);
        if marked(b, i) {
            assign(a, i, true);
        }
        assert forall|j: int| 0 <= j < i + 1 implies #[trigger] bits(*a)[j] == (start[j] || bits(*b)[j]) by {
            if j < i {
                assert(before[j] == (start[j] || bits(*b)[j]));
            } else {
                assert(before[j] == start[j]);
            }
        }
        assert forall|j: int| i + 1 <= j < n implies #[trigger] bits(*a)[j] == start[j] by {
            assert(before[j] == start[j]);
        }
        i += 1;
    }
    assert(bits(*a) =~= either(start, bits(*b)));
}

/// The bits that are set in `a` and not in `b`.
fn remove(a: &Marks, b: &Marks) -> (r: Marks)
    requires
        bits(*a).len() == bits(*b).len(),
    ensures
        bits(r) == without(bits(*a), bits(*b)),
{
    let n = count(a);
    let mut out = duplicate(a);
    let mut i: usize = 0;
    while i < n
        invariant
            i <= n,
            n == bits(*a).len(),
            n == bits(*b).len(),
            bits(out).len() == n,
            forall|j: int| 0 <= j < i ==> #[trigger] bits(out)[j] == (bits(*a)[j] && !bits(*b)[j]),
            forall|j: int| i <= j < n ==> #[trigger] bits(out)[j] == bits(*a)[j],
        decreases n - i,
    {
        let ghost before = bits(out);
        if marked(b, i) {
            assign(&mut out, i, false);
        }
        assert forall|j: int| 0 <= j < i + 1 implies #[trigger] bits(out)[j] == (bits(*a)[j] && !bits(*b)[j]) by {
            if j < i {
                assert(before[j] == (bits(*a)[j] && !bits(*b)[j]));
            } else {
                assert(before[j] == bits(*a)[j]);
            }
        }
        assert forall|j: int| i + 1 <= j < n implies #[trigger] bits(out)[j] == bits(*a)[j] by {
            assert(before[j] == bits(*a)[j]);
        }
        i += 1;
    }
    assert(bits(out) =~= without(bits(*a), bits(*b)));
    out
}

impl Module {
    /// The symbols that `decl` has to capture, given what is `provided`
    /// around it.
    pub fn closure_rec(&self, decl: &Declaration, provided: &Marks) -> (closure: Marks)
        requires
            self@.wf(),
            self@.named(),
            declaration_within(decl@, self@.symbols.len()),
            bits(*provided).len() == self@.symbols.len(),
        ensures
            bits(closure) == closure_of(self@, decl@, bits(*provided)),
            bits(closure).len() == self@.symbols.len(),
            forall|i: int| 0 <= i < self@.symbols.len() && #[trigger] bits(closure)[i] ==> !self@.names[i],
        decreases
                unset(context_of(self@.symbols.len(), decl@, bits(*provided)), self@.symbols.len() as int),
                self@.symbols.len() + 1,
    {
        let ghost m = self@;
        proof {
            lemma_closure_nameless(m, decl@, bits(*provided));
        }
        let n = self.symbols.len();
        let mut context = self.provided_mask(decl);
        unite(&mut context, provided);
        let required = self.required_mask(decl);
        let mut closure = remove(&required, &context);
        let ghost wanted = bits(closure);
        let mut name: usize = 0;
        while name < n
            invariant
                name <= n,
                m == self@,
                m.wf(),
                m.named(),
                n == m.symbols.len(),
                bits(context) == context_of(n as nat, decl@, bits(*provided)),
                bits(context).len() == n,
                wanted == without(required_bits(n as nat, decl@), bits(context)),
                bits(required) == required_bits(n as nat, decl@),
                bits(self.names).len() == n,
                bits(closure).len() == n,
                bits(closure) == closure_over(m, wanted, bits(context), name as int),
            decreases n - name,
        {
            let ghost before = bits(closure);
            assert(wanted[name as int] == (bits(required)[name as int] && !bits(context)[name as int]));
            if marked(&required, name) && !marked(&context, name) && marked(&self.names, name) {
                proof {
                    lemma_found(m.declarations, name, m.declarations.len() as int);
                }
                match self.declaration(name) {
                    Some(inner) => {
                        let ghost at = m.find(name).unwrap();
                        proof {
                            assert(declaration_within(m.declarations[at], n as nat));
                            assert(m.declarations[at].procedure[0] == name);
                            assert(inner@.procedure.contains(name));
                            assert(provided_bits(n as nat, inner@)[name as int]);
                            lemma_unset_shrinks(
                                bits(context),
                                context_of(n as nat, inner@, bits(context)),
                                n as int,
                                name as int,
                            );
                        }
                        assign(&mut closure, name, false);
                        let deeper = self.closure_rec(inner, &context);
                        unite(&mut closure, &deeper);
                        assert(bits(closure) == either(
                            before.update(name as int, false),
                            closure_of(m, inner@, bits(context)),
                        ));
                    },
                    None => {},
                }
            }
            assert(bits(closure) == closure_over(m, wanted, bits(context), name + 1));
            name += 1;
        }
        closure
    }

    /// Works out what each declaration has to capture.
    pub fn compute_closures(&mut self)
        requires
            old(self)@.wf(),
            old(self)@.named(),
        ensures
            final(self)@.symbols == old(self)@.symbols,
            final(self)@.names == old(self)@.names,
            final(self)@.imports == old(self)@.imports,
            final(self)@.strings == old(self)@.strings,
            final(self)@.numbers == old(self)@.numbers,
            final(self)@.declarations.len() == old(self)@.declarations.len(),
            forall|d: int|
                0 <= d < old(self)@.declarations.len() ==> (#[trigger] final(self)@.declarations[d]) == (
                DeclarationView {
                    closure: set_places(
                        closure_of(
                            old(self)@,
                            old(self)@.declarations[d],
                            Seq::new(old(self)@.symbols.len(), |i: int| false),
                        ),
                        old(self)@.symbols.len() as int,
                    ),
                    ..old(self)@.declarations[d]
                }),
    {
        let ghost m = self@;
        let n = self.symbols.len();
        let empty = cleared(n);
        let count = self.declarations.len();
        let mut closures: Vec<Vec<usize>> = Vec::new();
        let mut d: usize = 0;
        while d < count
            invariant
                d <= count,
                count == self.declarations@.len(),
                *self == *old(self),
                m == self@,
                m.wf(),
                m.named(),
                n == m.symbols.len(),
                bits(empty) == Seq::new(n as nat, |i: int| false),
                closures@.len() == d,
                forall|k: int|
                    0 <= k < d ==> (#[trigger] closures@[k])@ == set_places(
                        closure_of(m, m.declarations[k], bits(empty)),
                        n as int,
                    ),
            decreases count - d,
        {
            let decl = &self.declarations[d];
            assert(m.declarations[d as int] == decl@);
            assert(declaration_within(m.declarations[d as int], n as nat));
            let closure = self.closure_rec(decl, &empty);
            let mut places: Vec<usize> = Vec::new();
            let mut i: usize = 0;
            while i < n
                invariant
                    i <= n,
                    bits(closure).len() == n,
                    places@ == set_places(bits(closure), i as int),
                decreases n - i,
            {
                if marked(&closure, i) {
                    places.push(i);
                }
                i += 1;
            }
            closures.push(places);
            d += 1;
        }
        let ghost computed = Seq::new(count as nat, |k: int| closures@[k]@);
        let mut d: usize = 0;
        while d < count
            invariant
                d <= count,
                count == self.declarations@.len(),
                count == closures@.len(),
                count == m.declarations.len(),
                computed.len() == count,
                self.symbols == old(self).symbols,
                self.names == old(self).names,
                self.imports == old(self).imports,
                self.strings == old(self).strings,
                self.numbers == old(self).numbers,
                forall|k: int| d <= k < count ==> (#[trigger] closures@[k])@ == computed[k],
                forall|k: int|
                    0 <= k < d ==> (#[trigger] self.declarations@[k])@ == (DeclarationView {
                        closure: computed[k],
                        ..m.declarations[k]
                    }),
                forall|k: int| d <= k < count ==> (#[trigger] self.declarations@[k])@ == m.declarations[k],
            decreases count - d,
        {
            let mut places: Vec<usize> = Vec::new();
            core::mem::swap(&mut places, &mut closures[d]);
            self.declarations[d].closure = places;
            d += 1;
        }
        assert forall|k: int| 0 <= k < count implies (#[trigger] self@.declarations[k]) == (DeclarationView {
            closure: set_places(
                closure_of(m, m.declarations[k], Seq::new(n as nat, |i: int| false)),
                n as int,
            ),
            ..m.declarations[k]
        }) by {
            assert(self@.declarations[k] == self.declarations@[k]@);
        }
    }
}

/// Whether `e` can stand in a tail call: it is a name, a string or a number,
/// and a bound name has a number that can be marked.
pub open spec fn convertible(e: ExpressionView) -> bool {
    match e {
        ExpressionView::Reference(Some(n), _) => n < max_marks(),
        ExpressionView::Reference(None, _) => true,
        ExpressionView::Literal(_) => true,
        ExpressionView::Number(_) => true,
        _ => false,
    }
}

/// What `convert` makes of `e` and of the module.
pub open spec fn converted(m: ModuleView, e: ExpressionView) -> (ModuleView, Expression) {
    match e {
        ExpressionView::Reference(Some(n), text) => (
            ModuleView { symbols: with_symbol(m.symbols, n as int, text), ..m },
            Expression::Symbol(n),
        ),
        ExpressionView::Reference(None, text) => (
            ModuleView { imports: interned(m.imports, text).0, ..m },
            Expression::Import(interned(m.imports, text).1 as usize),
        ),
        ExpressionView::Literal(text) => (
            ModuleView { strings: interned(m.strings, text).0, ..m },
            Expression::Literal(interned(m.strings, text).1 as usize),
        ),
        ExpressionView::Number(n) => (
            ModuleView { numbers: interned(m.numbers, n).0, ..m },
            Expression::Number(interned(m.numbers, n).1 as usize),
        ),
        _ => (m, Expression::Number(0)),
    }
}

/// The symbols once the first `upto` binders have given their names.
pub open spec fn with_binders(symbols: Seq<Seq<char>>, binders: Seq<BinderView>, upto: int) -> Seq<Seq<char>>
    decreases upto,
{
    if upto <= 0 {
        symbols
    } else {
        with_symbol(
            with_binders(symbols, binders, upto - 1),
            binders[upto - 1].number.unwrap() as int,
            binders[upto - 1].name,
        )
    }
}

/// The numbers of the binders.
pub open spec fn numbers_of(binders: Seq<BinderView>) -> Seq<usize> {
    Seq::new(binders.len(), |i: int| binders[i].number.unwrap())
}

/// The module and the call once the first `upto` expressions are converted.
pub open spec fn with_call(m: ModuleView, call: Seq<ExpressionView>, upto: int) -> (ModuleView, Seq<Expression>)
    decreases upto,
{
    if upto <= 0 {
        (m, Seq::empty())
    } else {
        let before = with_call(m, call, upto - 1);
        let last = converted(before.0, call[upto - 1]);
        (last.0, before.1.push(last.1))
    }
}

/// The module once the first `upto` closures have become declarations.
pub open spec fn with_closures(m: ModuleView, statements: Seq<StatementView>, upto: int) -> ModuleView
    decreases upto,
{
    if upto <= 0 {
        m
    } else {
        let before = with_closures(m, statements, upto - 1);
        match statements[upto - 1] {
            StatementView::Closure(binders, call) => {
                let named = ModuleView {
                    symbols: with_binders(before.symbols, binders, binders.len() as int),
                    ..before
                };
                let filled = with_call(named, call, call.len() as int);
                ModuleView {
                    declarations: filled.0.declarations.push(
                        DeclarationView { procedure: numbers_of(binders), call: filled.1, closure: Seq::empty() },
                    ),
                    ..filled.0
                }
            },
            _ => before,
        }
    }
}

/// A binder with a number that can be marked.
pub open spec fn numbered(binder: BinderView) -> bool {
    binder.number matches Some(n) && n < max_marks()
}

/// A closure that can become a declaration: it has a name, its binders are
/// numbered, and its call holds only what can stand in a tail call.
pub open spec fn declarable(s: StatementView) -> bool {
    match s {
        StatementView::Closure(binders, call) => {
            &&& binders.len() > 0
            &&& forall|i: int|
                0 <= i < binders.len() ==> numbered(#[trigger] binders[i])
            &&& forall|i: int| 0 <= i < call.len() ==> convertible(#[trigger] call[i])
        },
        _ => false,
    }
}

/// A program that can become a module: a block of closures that can become
/// declarations.
pub open spec fn translatable(block: StatementView) -> bool {
    block matches StatementView::Block(statements) && forall|i: int|
        0 <= i < statements.len() ==> declarable(#[trigger] statements[i])
}

/// Whether `e` can stand in a tail call.
fn is_convertible(e: &Sugar) -> (r: bool)
    ensures
        r == convertible(e@),
{
    match e {
        Sugar::Reference(Some(n), _) => *n < usize::MAX / 8,
        Sugar::Reference(None, _) => true,
        Sugar::Literal(_) => true,
        Sugar::Number(_) => true,
        _ => false,
    }
}

/// Whether `s` is a closure that can become a declaration.
fn is_declarable(s: &Statement) -> (r: bool)
    ensures
        r == declarable(s@),
{
    match s {
        Statement::Closure(a, b) => {
            let ghost binders = binders_view(a@);
            let ghost call = expressions_view(b@);
            assert(s@ == StatementView::Closure(binders, call));
            if a.len() == 0 {
                return false;
            }
            let mut j: usize = 0;
            while j < a.len()
                invariant
                    j <= a.len(),
                    s@ == StatementView::Closure(binders, call),
                    binders == binders_view(a@),
                    forall|k: int| 0 <= k < j ==> numbered(#[trigger] binders[k]),
                decreases a.len() - j,
            {
                assert(binders[j as int] == a@[j as int]@);
                let fine = match a[j].0 {
                    Some(n) => n < usize::MAX / 8,
                    None => false,
                };
                if !fine {
                    assert(j < binders.len() && !numbered(binders[j as int]));
                    return false;
                }
                j += 1;
            }
            let mut k: usize = 0;
            while k < b.len()
                invariant
                    k <= b.len(),
                    s@ == StatementView::Closure(binders, call),
                    binders.len() > 0,
                    forall|q: int| 0 <= q < binders.len() ==> numbered(#[trigger] binders[q]),
                    call == expressions_view(b@),
                    forall|q: int| 0 <= q < k ==> convertible(#[trigger] call[q]),
                decreases b.len() - k,
            {
                assert(call[k as int] == b@[k as int]@);
                if !is_convertible(&b[k]) {
                    assert(k < call.len() && !convertible(s@->Closure_1[k as int]));
                    return false;
                }
                k += 1;
            }
            true
        },
        _ => false,
    }
}

/// Whether `block` is a program that can become a module.
pub fn is_translatable(block: &Statement) -> (r: bool)
    ensures
        r == translatable(block@),
{
    match block {
        Statement::Block(statements) => {
            let ghost views = statements_view(statements@);
            assert(block@ == StatementView::Block(views));
            let mut i: usize = 0;
            while i < statements.len()
                invariant
                    i <= statements.len(),
                    block@ == StatementView::Block(views),
                    views == statements_view(statements@),
                    forall|k: int| 0 <= k < i ==> declarable(#[trigger] views[k]),
                decreases statements.len() - i,
            {
                assert(views[i as int] == statements@[i as int]@);
                if !is_declarable(&statements[i]) {
                    assert(i < views.len() && !declarable(block@->Block_0[i as int]));
                    return false;
                }
                i += 1;
            }
            true
        },
        _ => false,
    }
}

/// The module with no symbol, constant or declaration.
pub open spec fn empty_module() -> ModuleView {
    ModuleView {
        symbols: Seq::empty(),
        names: Seq::empty(),
        imports: Seq::empty(),
        strings: Seq::empty(),
        numbers: Seq::empty(),
        declarations: Seq::empty(),
    }
}

/// The declarations of a program, before anything is known of what they capture.
pub open spec fn declared(block: StatementView) -> ModuleView {
    with_closures(empty_module(), block->Block_0, block->Block_0.len() as int)
}

/// What holds of a module while declarations are added to it.
spec fn growing(m: ModuleView) -> bool {
    &&& m.symbols.len() <= max_marks()
    &&& forall|d: int|
        0 <= d < m.declarations.len() ==> declaration_within(#[trigger] m.declarations[d], m.symbols.len())
}

proof fn lemma_growing_symbols(m: ModuleView, symbols: Seq<Seq<char>>)
    requires
        growing(m),
        m.symbols.len() <= symbols.len() <= max_marks(),
    ensures
        growing(ModuleView { symbols, ..m }),
{
    let bigger = ModuleView { symbols, ..m };
    assert forall|d: int| 0 <= d < bigger.declarations.len() implies declaration_within(
        #[trigger] bigger.declarations[d],
        bigger.symbols.len(),
    ) by {
        assert(declaration_within(m.declarations[d], m.symbols.len()));
    }
}

impl Module {
    /// The module of a program whose sugar has been taken out: a
    /// declaration for each closure, with the symbols that it captures.
    pub fn from(block: &Statement) -> (r: Module)
        requires
            translatable(block@),
        ensures
            r@.symbols == declared(block@).symbols,
            r@.imports == declared(block@).imports,
            r@.strings == declared(block@).strings,
            r@.numbers == declared(block@).numbers,
            r@.names == name_bits(declared(block@).symbols.len(), declared(block@).declarations),
            r@.declarations.len() == declared(block@).declarations.len(),
            forall|d: int|
                0 <= d < r@.declarations.len() ==> (#[trigger] r@.declarations[d]) == (DeclarationView {
                    closure: set_places(
                        closure_of(
                            ModuleView {
                                names: name_bits(declared(block@).symbols.len(), declared(block@).declarations),
                                ..declared(block@)
                            },
                            declared(block@).declarations[d],
                            Seq::new(declared(block@).symbols.len(), |i: int| false),
                        ),
                        declared(block@).symbols.len() as int,
                    ),
                    ..declared(block@).declarations[d]
                }),
    {
        let mut module = Module::new();
        let ghost start = module@;
        match block {
            Statement::Block(statements) => {
                let ghost views = statements_view(statements@);
                assert(block@->Block_0 == views);
                let mut i: usize = 0;
                while i < statements.len()
                    invariant
                        i <= statements.len(),
                        views == statements_view(statements@),
                        forall|k: int| 0 <= k < views.len() ==> declarable(#[trigger] views[k]),
                        start == empty_module(),
                        module@ == with_closures(start, views, i as int),
                        growing(module@),
                    decreases statements.len() - i,
                {
                    assert(views[i as int] == statements@[i as int]@);
                    assert(declarable(views[i as int]));
                    match &statements[i] {
                        Statement::Closure(a, b) => {
                            let ghost before = module@;
                            let ghost binders = binders_view(a@);
                            let ghost call = expressions_view(b@);
                            assert(views[i as int] == StatementView::Closure(binders, call));
                            let mut procedure: Vec<usize> = Vec::new();
                            let mut j: usize = 0;
                            while j < a.len()
                                invariant
                                    j <= a.len(),
                                    binders == binders_view(a@),
                                    forall|k: int|
                                        0 <= k < binders.len() ==> numbered(#[trigger] binders[k]),
                                    growing(module@),
                                    module@ == (ModuleView {
                                        symbols: with_binders(before.symbols, binders, j as int),
                                        ..before
                                    }),
                                    procedure@ == numbers_of(binders).take(j as int),
                                    forall|k: int| 0 <= k < j ==> (#[trigger] procedure@[k]) < module@.symbols.len(),
                                decreases a.len() - j,
                            {
                                assert(binders[j as int] == a@[j as int]@);
                                assert(numbered(binders[j as int]));
                                let ghost old_symbols = module@.symbols;
                                match a[j].0 {
                                    Some(n) => {
                                        proof {
                                            lemma_growing_symbols(
                                                module@,
                                                with_symbol(old_symbols, n as int, a@[j as int].1@),
                                            );
                                        }
                                        let name = a[j].1.clone();
                                        let number = module.symbol(n, name);
                                        procedure.push(number);
                                        assert(procedure@ =~= numbers_of(binders).take(j + 1));
                                    },
                                    None => {},
                                }
                                j += 1;
                            }
                            assert(numbers_of(binders).take(binders.len() as int) =~= numbers_of(binders));
                            assert(declarable(StatementView::Closure(binders, call)));
                            assert forall|q: int| 0 <= q < call.len() implies convertible(#[trigger] call[q]) by {
                                let s = StatementView::Closure(binders, call);
                                assert(declarable(s));
                                assert(s->Closure_1[q] == call[q]);
                            }
                            let ghost named = module@;
                            let mut items: Vec<Expression> = Vec::new();
                            let mut k: usize = 0;
                            assert(items@ =~= with_call(named, call, 0).1);
                            while k < b.len()
                                invariant
                                    k <= b.len(),
                                    call == expressions_view(b@),
                                    forall|q: int| 0 <= q < call.len() ==> convertible(#[trigger] call[q]),
                                    growing(module@),
                                    named.symbols.len() <= module@.symbols.len(),
                                    module@ == with_call(named, call, k as int).0,
                                    items@ == with_call(named, call, k as int).1,
                                    items@.len() == k,
                                    procedure@.len() == binders.len(),
                                    forall|q: int|
                                        0 <= q < procedure@.len() ==> (#[trigger] procedure@[q])
                                            < module@.symbols.len(),
                                    forall|q: int|
                                        0 <= q < k ==> ((#[trigger] items@[q]) matches Expression::Symbol(s) ==> s
                                            < module@.symbols.len()),
                                decreases b.len() - k,
                            {
                                assert(call[k as int] == b@[k as int]@);
                                assert(convertible(call[k as int]));
                                let ghost so_far = module@;
                                proof {
                                    if let ExpressionView::Reference(Some(n), text) = call[k as int] {
                                        lemma_growing_symbols(so_far, with_symbol(so_far.symbols, n as int, text));
                                    }
                                }
                                let ghost before_items = items@;
                                let item = module.convert(copy_expression(&b[k]));
                                items.push(item);
                                proof {
                                    assert(module@ == converted(so_far, call[k as int]).0);
                                    assert(item == converted(so_far, call[k as int]).1);
                                    assert(so_far.symbols.len() <= module@.symbols.len());
                                    assert forall|q: int| 0 <= q < k + 1 implies ((#[trigger] items@[q]) matches Expression::Symbol(
                                        s,
                                    ) ==> s < module@.symbols.len()) by {
                                        if q < k {
                                            assert(items@[q] == before_items[q]);
                                        }
                                    }
                                    assert(growing(module@)) by {
                                        match call[k as int] {
                                            ExpressionView::Reference(Some(n), text) => {},
                                            _ => {
                                                lemma_growing_symbols(so_far, so_far.symbols);
                                                assert(module@.symbols == so_far.symbols);
                                                assert(module@.declarations == so_far.declarations);
                                            },
                                        }
                                    }
                                }
                                k += 1;
                            }
                            let ghost filled = module@;
                            let decl = Declaration { procedure, call: items, closure: Vec::new() };
                            assert(decl@.closure =~= Seq::empty());
                            module.declarations.push(decl);
                            proof {
                                assert(module@.declarations =~= filled.declarations.push(decl@));
                                assert forall|d: int| 0 <= d < module@.declarations.len() implies declaration_within(
                                    #[trigger] module@.declarations[d],
                                    module@.symbols.len(),
                                ) by {
                                    if d < filled.declarations.len() {
                                        assert(declaration_within(filled.declarations[d], filled.symbols.len()));
                                    }
                                }
                            }
                        },
                        _ => {},
                    }
                    i += 1;
                }
            },
            _ => {},
        }
        let ghost built = module@;
        module.find_names();
        module.compute_closures();
        module
    }
}

} // verus!
