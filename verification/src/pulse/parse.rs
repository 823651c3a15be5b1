//! The text form of a module declaration:
//! `<prefix><name> -> <target>, <target>, ...`.

use vstd::prelude::*;
use vstd::string::StrSliceExecFns;
use crate::pulse::module::ModuleType;
use crate::text::{find, find_from, lemma_find, slice, split, split_bounds, texts, to_chars};

verus! {

/// What is wrong with a line that declares no module.
#[derive(Clone, Copy, Debug, PartialEq, Eq, Structural)]
pub enum Fault {
    /// The line has no ` -> `.
    MissingSeparator,
    /// Nothing stands before the ` -> `.
    MissingName,
    /// Nothing stands behind the ` -> `.
    EmptyTargets,
}

/// A line that could not be read, by its index, and why.
#[derive(Clone, Copy, Debug, PartialEq, Eq, Structural)]
pub struct ParseError {
    pub line: usize,
    pub fault: Fault,
}

/// One module as a line declares it, with names still as text.
#[derive(Debug)]
pub struct Declaration {
    pub module_type: ModuleType,
    pub name: String,
    pub targets: Vec<String>,
}

/// The mathematical value of a [`Declaration`].
pub struct DeclarationText {
    pub kind: ModuleType,
    pub name: Seq<char>,
    pub targets: Seq<Seq<char>>,
}

impl Declaration {
    pub open spec fn view(&self) -> DeclarationText {
        DeclarationText {
            kind: self.module_type,
            name: self.name@,
            targets: texts(self.targets@),
        }
    }
}

/// The separator between a module and its targets.
pub open spec fn arrow() -> Seq<char> {
    seq![' ', '-', '>', ' ']
}

/// The separator between two targets.
pub open spec fn comma() -> Seq<char> {
    seq![',', ' ']
}

/// The kind that the first character of a declaration selects: `%` a
/// flip-flop, `&` a conjunction, anything else a broadcaster.
pub open spec fn kind_of(first: char) -> ModuleType {
    if first == '%' {
        ModuleType::FlipFlop
    } else if first == '&' {
        ModuleType::Conjunction
    } else {
        ModuleType::Broadcaster
    }
}

/// What a line declares.
///
/// The text before the first ` -> ` is the module: a prefix that selects the
/// kind, where there is one, and the name. The text behind it, up to a second
/// ` -> ` if there is one, is the list of targets, separated by `, `. A line
/// without ` -> `, with nothing before it, or with nothing behind it declares
/// no module.
pub open spec fn parse(line: Seq<char>) -> Result<DeclarationText, Fault> {
    match find(line, arrow(), 0) {
        None => Err(Fault::MissingSeparator),
        Some(at) => {
            let from = at + 4;
            let to = match find(line, arrow(), from) {
                Some(next) => next,
                None => line.len() as int,
            };
            if at == 0 {
                Err(Fault::MissingName)
            } else if to == from {
                Err(Fault::EmptyTargets)
            } else {
                let kind = kind_of(line[0]);
                let skip: int = if kind == ModuleType::Broadcaster {
                    0
                } else {
                    1
                };
                Ok(
                    DeclarationText {
                        kind,
                        name: line.subrange(skip, at),
                        targets: split(line.subrange(from, to), comma()),
                    },
                )
            }
        },
    }
}

/// Reads one declaration.
pub fn parse_line(line: &str) -> (decl: Result<Declaration, Fault>)
    ensures
        match decl {
            Ok(d) => parse(line@) == Ok::<DeclarationText, Fault>(d@),
            Err(fault) => parse(line@) == Err::<DeclarationText, Fault>(fault),
        },
{
    let chars = to_chars(line);
    let arrow_pat: Vec<char> = vec![' ', '-', '>', ' '];
    let comma_pat: Vec<char> = vec![',', ' '];
    assert(arrow_pat@ =~= arrow());
    assert(comma_pat@ =~= comma());
    let at = match find_from(&chars, &arrow_pat, 0) {
        None => {
            return Err(Fault::MissingSeparator);
        },
        Some(at) => at,
    };
    proof {
        lemma_find(chars@, arrow(), 0);
        lemma_find(chars@, arrow(), at + 4);
        assert(arrow().len() == 4);
        assert(chars@.len() == chars.len());
    }
    let from = at + 4;
    let to = match find_from(&chars, &arrow_pat, from) {
        Some(next) => next,
        None => chars.len(),
    };
    if at == 0 {
        return Err(Fault::MissingName);
    }
    if to == from {
        return Err(Fault::EmptyTargets);
    }
    let first = chars[0];
    let module_type = if first == '%' {
        ModuleType::FlipFlop
    } else if first == '&' {
        ModuleType::Conjunction
    } else {
        ModuleType::Broadcaster
    };
    let skip: usize = if first == '%' || first == '&' {
        1
    } else {
        0
    };
    let name = line.substring_char(skip, at).to_owned();
    let body = slice(&chars, from, to);
    let bounds = split_bounds(&body, &comma_pat);
    let mut targets: Vec<String> = Vec::new();
    let mut k: usize = 0;
    while k < bounds.len()
        invariant
            k <= bounds@.len(),
            from <= to <= line@.len(),
            body@ == line@.subrange(from as int, to as int),
            bounds@.len() == split(body@, comma()).len(),
            forall|i: int|
                0 <= i < bounds@.len() ==> {
                    &&& (#[trigger] bounds@[i]).0 <= bounds@[i].1 <= body@.len()
                    &&& body@.subrange(bounds@[i].0 as int, bounds@[i].1 as int) == split(
                        body@,
                        comma(),
                    )[i]
                },
            targets@.len() == k,
            forall|i: int| 0 <= i < k ==> (#[trigger] targets@[i])@ == split(body@, comma())[i],
        decreases bounds@.len() - k,
    {
        let (a, b) = bounds[k];
        let target = line.substring_char(from + a, from + b).to_owned();
        assert(line@.subrange(from + a, from + b) =~= body@.subrange(a as int, b as int));
        targets.push(target);
        k += 1;
    }
    let decl = Declaration { module_type, name, targets };
    assert(decl@.targets =~= split(body@, comma()));
    Ok(decl)
}

} // verus!
