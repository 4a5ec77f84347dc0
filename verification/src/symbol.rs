//! The symbols of the frames of a call stack.

use vstd::prelude::*;

verus! {

/// What is known of the function at one instruction address.
#[derive(Clone, Debug, PartialEq, Eq)]
pub struct Symbol {
    /// The demangled name of the function, empty if unknown.
    pub name: String,
    /// The instruction address.
    pub address: usize,
    /// The path of the source file, empty if unknown.
    pub file_name: String,
    /// The line in the source file, 0 if unknown.
    pub line_no: u32,
    /// The column in the source file, 0 if unknown.
    pub col_no: u32,
}

/// What a `Symbol` holds.
pub ghost struct SymbolView {
    pub name: Seq<char>,
    pub address: usize,
    pub file_name: Seq<char>,
    pub line_no: u32,
    pub col_no: u32,
}

impl View for Symbol {
    type V = SymbolView;

    open spec fn view(&self) -> SymbolView {
        SymbolView {
            name: self.name@,
            address: self.address,
            file_name: self.file_name@,
            line_no: self.line_no,
            col_no: self.col_no,
        }
    }
}

/// The views of a run of symbols, in the same order.
pub open spec fn symbol_views(symbols: Seq<Symbol>) -> Seq<SymbolView> {
    Seq::new(symbols.len(), |i: int| symbols[i]@)
}

/// The symbol that the given parts make: a part that is missing becomes the
/// empty string or 0.
pub fn symbol_from_parts(
    name: Option<String>,
    address: Option<usize>,
    file_name: Option<String>,
    line_no: Option<u32>,
    col_no: Option<u32>,
) -> (symbol: Symbol)
    ensures
        symbol.name@ == (match name {
            Some(text) => text@,
            None => Seq::<char>::empty(),
        }),
        symbol.address == (match address {
            Some(value) => value,
            None => 0,
        }),
        symbol.file_name@ == (match file_name {
            Some(text) => text@,
            None => Seq::<char>::empty(),
        }),
        symbol.line_no == (match line_no {
            Some(value) => value,
            None => 0,
        }),
        symbol.col_no == (match col_no {
            Some(value) => value,
            None => 0,
        }),
{
    Symbol {
        name: match name {
            Some(text) => text,
            None => String::new(),
        },
        address: match address {
            Some(value) => value,
            None => 0,
        },
        file_name: match file_name {
            Some(text) => text,
            None => String::new(),
        },
        line_no: match line_no {
            Some(value) => value,
            None => 0,
        },
        col_no: match col_no {
            Some(value) => value,
            None => 0,
        },
    }
}

/// Keeps the first symbol that is offered: `slot` takes `symbol` only while
/// it is empty.
pub fn keep_first(slot: &mut Option<Symbol>, symbol: Symbol)
    ensures
        *final(slot) == (match *old(slot) {
            Some(first) => Some(first),
            None => Some(symbol),
        }),
{
    if slot.is_none() {
        *slot = Some(symbol);
    }
}

/// The symbols among what was found for a run of frames, in the order of the
/// frames: a frame for which nothing was found is left out.
pub open spec fn present(found: Seq<Option<Symbol>>) -> Seq<Symbol>
    decreases found.len(),
{
    if found.len() == 0 {
        Seq::empty()
    } else {
        match found.last() {
            Some(symbol) => present(found.drop_last()).push(symbol),
            None => present(found.drop_last()),
        }
    }
}

/// There are no more symbols than frames.
pub proof fn lemma_present_len(found: Seq<Option<Symbol>>)
    ensures
        present(found).len() <= found.len(),
    decreases found.len(),
{
    if found.len() > 0 {
        lemma_present_len(found.drop_last());
    }
}

/// Whether `found` holds, for each of `frames` in turn, an answer that
/// `resolve` may give for it.
pub open spec fn resolves<F: Fn(usize) -> Option<Symbol>>(
    resolve: F,
    frames: Seq<usize>,
    found: Seq<Option<Symbol>>,
) -> bool {
    &&& found.len() == frames.len()
    &&& forall|i: int|
        0 <= i < frames.len() ==> call_ensures(resolve, (frames[i],), #[trigger] found[i])
}

/// Whether `symbols` are what `resolve` may give for `frames`: the symbols of
/// the frames for which it finds one, in the order of the frames.
pub open spec fn resolved_by<F: Fn(usize) -> Option<Symbol>>(
    resolve: F,
    frames: Seq<usize>,
    symbols: Seq<SymbolView>,
) -> bool {
    exists|found: Seq<Option<Symbol>>|
        resolves(resolve, frames, found) && symbols == symbol_views(#[trigger] present(found))
}

/// Resolves the frames of a call stack with `resolve`, which gives the symbol
/// at an address if it finds one: the symbols that it gives, in the order of
/// the frames.
pub fn frames_to_symbols<F: Fn(usize) -> Option<Symbol>>(
    frames: &[usize],
    resolve: &F,
) -> (symbols: Vec<Symbol>)
    requires
        forall|address: usize| call_requires(*resolve, (address,)),
    ensures
        exists|found: Seq<Option<Symbol>>|
            resolves(*resolve, frames@, found) && symbols@ == #[trigger] present(found),
        resolved_by(*resolve, frames@, symbol_views(symbols@)),
        symbols@.len() <= frames@.len(),
{
    let mut symbols: Vec<Symbol> = Vec::new();
    let ghost mut found: Seq<Option<Symbol>> = Seq::empty();
    let mut i: usize = 0;
    while i < frames.len()
        invariant
            i <= frames.len(),
            forall|address: usize| call_requires(*resolve, (address,)),
            resolves(*resolve, frames@.take(i as int), found),
            symbols@ == present(found),
        decreases frames.len() - i,
    {
        let answer = resolve(frames[i]);
        proof {
            let next = found.push(answer);
            assert(next.drop_last() =~= found);
            assert(frames@.take(i as int + 1) =~= frames@.take(i as int).push(frames@[i as int]));
            found = next;
        }
        if let Some(symbol) = answer {
            symbols.push(symbol);
        }
        i = i + 1;
    }
    proof {
        assert(frames@.take(i as int) =~= frames@);
        lemma_present_len(found);
    }
    symbols
}

} // verus!
