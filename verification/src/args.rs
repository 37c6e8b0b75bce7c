//! What the command lines of the tools have in common.

use vstd::prelude::*;
use vstd::string::*;

use crate::text::{pieces, same_text, split_at_marks, texts, to_uppercase, trim, trimmed, uppercase};

verus! {

/// The argument that follows the first occurrence of a flag.
pub open spec fn value_after(argv: Seq<Seq<char>>, flag: Seq<char>) -> Option<Seq<char>>
    decreases argv.len(),
{
    if argv.len() == 0 {
        None
    } else if argv[0] == flag {
        if argv.len() > 1 {
            Some(argv[1])
        } else {
            None
        }
    } else {
        value_after(argv.drop_first(), flag)
    }
}

/// Finds the argument that follows the first occurrence of a flag.
pub fn flag_value<'a>(argv: &'a Vec<String>, flag: &str) -> (r: Option<&'a String>)
    ensures
        match r {
            Some(s) => value_after(texts(argv@), flag@) == Some(s@),
            None => value_after(texts(argv@), flag@) is None,
        },
{
    let ghost all = texts(argv@);
    let mut i: usize = 0;
    proof {
        assert(all.skip(0) =~= all);
    }
    while i < argv.len()
        invariant
            i <= argv.len(),
            all == texts(argv@),
            value_after(all, flag@) == value_after(all.skip(i as int), flag@),
        decreases argv.len() - i,
    {
        proof {
            assert(all.skip(i as int)[0] == argv@[i as int]@);
            assert(all.skip(i as int).drop_first() =~= all.skip(i + 1));
        }
        if same_text(argv[i].as_str(), flag) {
            if argv.len() - i > 1 {
                assert(all.skip(i as int)[1] == argv@[i + 1]@);
                return Some(&argv[i + 1]);
            }
            return None;
        }
        i = i + 1;
    }
    None
}

/// A symbol as the tools compare it: without the white space around it, and in upper case.
pub open spec fn symbol_of(s: Seq<char>) -> Seq<char> {
    uppercase(trimmed(s))
}

/// Those symbols of some pieces of a text that are not empty, in order.
pub open spec fn symbols_of(list: Seq<Seq<char>>) -> Seq<Seq<char>>
    decreases list.len(),
{
    if list.len() == 0 {
        Seq::empty()
    } else {
        let symbol = symbol_of(list.last());
        if symbol.len() == 0 {
            symbols_of(list.drop_last())
        } else {
            symbols_of(list.drop_last()).push(symbol)
        }
    }
}

/// The symbols that a text names, with commas between them.
pub open spec fn symbol_list(s: Seq<char>) -> Seq<Seq<char>> {
    symbols_of(pieces(s, ','))
}

/// Reads the symbols that a text names, with commas between them.
pub fn parse_symbols(s: &str) -> (r: Vec<String>)
    ensures
        texts(r@) == symbol_list(s@),
{
    let parts: Vec<String> = split_at_marks(s, ',');
    let ghost list = texts(parts@);
    let mut r: Vec<String> = Vec::new();
    let mut i: usize = 0;
    proof {
        assert(texts(r@) =~= symbols_of(list.take(0)));
    }
    while i < parts.len()
        invariant
            i <= parts.len(),
            list == texts(parts@),
            texts(r@) == symbols_of(list.take(i as int)),
        decreases parts.len() - i,
    {
        proof {
            assert(list.take(i + 1).drop_last() =~= list.take(i as int));
            assert(list.take(i + 1).last() == parts@[i as int]@);
        }
        let bare: String = trim(parts[i].as_str());
        let symbol: String = to_uppercase(bare.as_str());
        if symbol.as_str().unicode_len() > 0 {
            let ghost so_far = r@;
            r.push(symbol);
            assert(texts(r@) =~= texts(so_far).push(symbol@));
        }
        i = i + 1;
    }
    proof {
        assert(list.take(i as int) =~= list);
    }
    r
}

/// No symbol of a list is empty.
pub proof fn listed_symbols_are_not_empty(s: Seq<char>, i: int)
    requires
        0 <= i < symbol_list(s).len(),
    ensures
        symbol_list(s)[i].len() > 0,
{
    lemma_symbols_are_not_empty(pieces(s, ','), i);
}

proof fn lemma_symbols_are_not_empty(list: Seq<Seq<char>>, i: int)
    requires
        0 <= i < symbols_of(list).len(),
    ensures
        symbols_of(list)[i].len() > 0,
    decreases list.len(),
{
    if i < symbols_of(list.drop_last()).len() {
        lemma_symbols_are_not_empty(list.drop_last(), i);
    }
}

} // verus!
