//! The recovery of the local variables that introduced the regions.
//!
//! The compiler writes the body of a function with the regions in the types
//! of its locals, a line for each local: `let mut _3: &'_#5r i32;`. Such a
//! line is found by a regular expression, and the regions in the type of
//! the local by another one. What the expressions match is left to the
//! `regex` crate; what is made of the matches is decided here.

use vstd::prelude::*;
use crate::assoc::AssocMap;
use crate::atoms::Region;
use crate::labels::{number_of, parse_number};
use crate::loader::label_bytes;

verus! {

/// The error of the `regex` crate, `regex::Error`. Nothing is claimed of
/// it: it is only told from a success.
#[verifier::external_type_specification]
#[verifier::external_body]
pub struct ExRegexError(regex::Error);

/// The groups of a match: the text of the whole match first, then the text
/// of each group of the expression, or nothing for a group that took no
/// part in the match.
pub type Groups = Vec<Option<String>>;

/// What `regex::Regex::captures` finds for the expression `pattern` in
/// `text`: nothing where `regex::Regex::new` refuses the expression, else
/// the groups of the first match, if there is a match.
pub uninterp spec fn regex_captures(pattern: Seq<char>, text: Seq<char>) -> Option<
    Option<Seq<Option<Seq<char>>>>,
>;

/// What `regex::Regex::captures_iter` finds for the expression `pattern` in
/// `text`: nothing where `regex::Regex::new` refuses the expression, else
/// the groups of each match, in the order of the matches.
pub uninterp spec fn regex_all_captures(pattern: Seq<char>, text: Seq<char>) -> Option<
    Seq<Seq<Option<Seq<char>>>>,
>;

/// Compiles `pattern` with `regex::Regex::new` and searches `text` with
/// `regex::Regex::captures`. The contract claims only that the outcome is
/// determined by the two texts: it is called `regex_captures`.
#[verifier::external_body]
fn captures(pattern: &str, text: &str) -> (found: Result<Option<Groups>, regex::Error>)
    ensures
        found matches Ok(groups) ==> regex_captures(pattern@, text@) == Some(groups.deep_view()),
        found is Err ==> regex_captures(pattern@, text@) is None,
{
    let expression = regex::Regex::new(pattern)?;
    Ok(
        expression.captures(text).map(
            |caps| caps.iter().map(|group| group.map(|m| m.as_str().to_string())).collect(),
        ),
    )
}

/// Compiles `pattern` with `regex::Regex::new` and searches `text` with
/// `regex::Regex::captures_iter`. The contract claims only that the outcome
/// is determined by the two texts: it is called `regex_all_captures`.
#[verifier::external_body]
fn all_captures(pattern: &str, text: &str) -> (found: Result<Vec<Groups>, regex::Error>)
    ensures
        found matches Ok(matches) ==> regex_all_captures(pattern@, text@) == Some(
            matches.deep_view(),
        ),
        found is Err ==> regex_all_captures(pattern@, text@) is None,
{
    let expression = regex::Regex::new(pattern)?;
    Ok(
        expression.captures_iter(text).map(
            |caps| caps.iter().map(|group| group.map(|m| m.as_str().to_string())).collect(),
        ).collect(),
    )
}

/// The expression for the line that defines a local: the number of the
/// local is its second group, the type of the local its third.
pub fn variable_definition() -> (pattern: &'static str)
    ensures
        pattern@ == "^\\s+let (mut )?_(?P<local>\\d+): (?P<type>.+)$"@,
{
    "^\\s+let (mut )?_(?P<local>\\d+): (?P<type>.+)$"
}

/// The expression for a region in a type: the number of the region is its
/// first group.
pub fn region_name() -> (pattern: &'static str)
    ensures
        pattern@ == "'_#(\\d+)r"@,
{
    "'_#(\\d+)r"
}

/// The number that the text of a group writes.
pub open spec fn group_number(group: Option<Seq<char>>) -> Option<usize> {
    match group {
        Some(text) => number_of(label_bytes(text)),
        None => None,
    }
}

/// The number that the text of a group writes.
pub fn number_of_group(group: &Option<String>) -> (number: Option<usize>)
    ensures
        number == group_number(group.deep_view()),
{
    match group {
        Some(text) => {
            let bytes = text.as_str().as_bytes();
            assert(bytes@.subrange(0, bytes@.len() as int) =~= bytes@);
            parse_number(bytes, 0, bytes.len())
        },
        None => None,
    }
}

/// The local that a line defines, and the text of its type, read from the
/// groups that the expression for such lines has found.
pub open spec fn definition_in(found: Option<Seq<Option<Seq<char>>>>) -> Option<(usize, Seq<char>)> {
    match found {
        Some(groups) => if groups.len() == 4 {
            match (group_number(groups[2]), groups[3]) {
                (Some(local), Some(typ)) => Some((local, typ)),
                _ => None,
            }
        } else {
            None
        },
        None => None,
    }
}

/// Reads the local that a line defines, and the text of its type, from the
/// groups that the expression for such lines has found.
pub fn definition_of(found: &Option<Groups>) -> (definition: Option<(usize, String)>)
    ensures
        definition.deep_view() == definition_in(found.deep_view()),
{
    match found {
        Some(groups) => {
            assert(groups.deep_view().len() == groups@.len());
            if groups.len() == 4 {
                match (number_of_group(&groups[2]), &groups[3]) {
                    (Some(local), Some(typ)) => Some((local, typ.clone())),
                    _ => None,
                }
            } else {
                None
            }
        },
        None => None,
    }
}

/// The regions that the matches of the expression for regions name, in the
/// order of the matches. A match without a number that fits is passed over.
pub open spec fn regions_in(matches: Seq<Seq<Option<Seq<char>>>>) -> Seq<Region>
    decreases matches.len(),
{
    if matches.len() == 0 {
        Seq::empty()
    } else {
        let before = regions_in(matches.drop_last());
        let groups = matches.last();
        if groups.len() == 2 {
            match group_number(groups[1]) {
                Some(n) => before.push(Region(n)),
                None => before,
            }
        } else {
            before
        }
    }
}

/// Reads the regions that the matches of the expression for regions name.
pub fn regions_of(matches: &Vec<Groups>) -> (regions: Vec<Region>)
    ensures
        regions@ == regions_in(matches.deep_view()),
{
    let ghost all = matches.deep_view();
    let mut regions: Vec<Region> = Vec::new();
    let mut i: usize = 0;
    while i < matches.len()
        invariant
            i <= matches.len(),
            all == matches.deep_view(),
            all.len() == matches@.len(),
            regions@ == regions_in(all.take(i as int)),
        decreases matches.len() - i,
    {
        let groups = &matches[i];
        proof {
            let longer = all.take(i + 1);
            assert(longer.drop_last() =~= all.take(i as int));
        }
        if groups.len() == 2 {
            match number_of_group(&groups[1]) {
                Some(n) => {
                    regions.push(Region(n));
                },
                None => {},
            }
        }
        i += 1;
    }
    assert(all.take(i as int) =~= all);
    regions
}

/// The map `map` after each region of `regions` is given the local `local`.
pub open spec fn with_local(map: Map<Region, usize>, regions: Seq<Region>, local: usize) -> Map<
    Region,
    usize,
>
    decreases regions.len(),
{
    if regions.len() == 0 {
        map
    } else {
        with_local(map, regions.drop_last(), local).insert(regions.last(), local)
    }
}

/// The map `map` after the line `line` is read: where the line defines a
/// local, each region in the type of the local is given this local.
pub open spec fn after_line(map: Map<Region, usize>, line: Seq<char>) -> Map<Region, usize> {
    match regex_captures(variable_definition_text(), line) {
        Some(found) => match definition_in(found) {
            Some((local, typ)) => match regex_all_captures(region_name_text(), typ) {
                Some(matches) => with_local(map, regions_in(matches), local),
                None => map,
            },
            None => map,
        },
        None => map,
    }
}

/// The text of the expression for the line that defines a local.
pub open spec fn variable_definition_text() -> Seq<char> {
    "^\\s+let (mut )?_(?P<local>\\d+): (?P<type>.+)$"@
}

/// The text of the expression for a region in a type.
pub open spec fn region_name_text() -> Seq<char> {
    "'_#(\\d+)r"@
}

/// Whether one of the two expressions is refused on the line `line`.
pub open spec fn is_refused(line: Seq<char>) -> bool {
    match regex_captures(variable_definition_text(), line) {
        Some(found) => match definition_in(found) {
            Some((local, typ)) => regex_all_captures(region_name_text(), typ) is None,
            None => false,
        },
        None => true,
    }
}

/// The map from regions to locals after the first `n` lines of `lines` are
/// read.
pub open spec fn recovered(lines: Seq<Seq<char>>, n: int) -> Map<Region, usize>
    decreases n,
{
    if n <= 0 || n > lines.len() {
        Map::empty()
    } else {
        after_line(recovered(lines, n - 1), lines[n - 1])
    }
}

/// Whether the line `at` is the first of `lines` on which an expression is
/// refused.
pub open spec fn is_first_refused(lines: Seq<Seq<char>>, at: int) -> bool {
    &&& 0 <= at < lines.len()
    &&& is_refused(lines[at])
    &&& forall|j: int| 0 <= j < at ==> !is_refused(#[trigger] lines[j])
}

/// The expressions could not be used.
#[derive(Debug, PartialEq, Eq)]
pub struct RecoveryError {
    /// The number of the line, counted from 0, at which an expression was
    /// refused.
    pub line: usize,
}

/// Gives each region of `regions` the local `local`.
fn give_local(map: &mut AssocMap<Region, usize>, regions: &Vec<Region>, local: usize)
    requires
        old(map).wf(),
    ensures
        final(map).wf(),
        final(map)@ == with_local(old(map)@, regions@, local),
{
    let mut i: usize = 0;
    while i < regions.len()
        invariant
            i <= regions.len(),
            map.wf(),
            map@ == with_local(old(map)@, regions@.take(i as int), local),
        decreases regions.len() - i,
    {
        proof {
            let longer = regions@.take(i + 1);
            assert(longer.drop_last() =~= regions@.take(i as int));
        }
        map.insert(regions[i], local);
        i += 1;
    }
    assert(regions@.take(i as int) =~= regions@);
}

/// Recovers the local that introduced each region from the lines of the
/// body of a function as the compiler writes it. A region that occurs in
/// the types of several locals is given the last of them.
pub fn load_region_to_local_map(lines: &Vec<String>) -> (found: Result<
    AssocMap<Region, usize>,
    RecoveryError,
>)
    ensures
        found matches Ok(map) ==> map.wf() && map@ == recovered(
            lines.deep_view(),
            lines@.len() as int,
        ),
        found matches Err(e) ==> is_first_refused(lines.deep_view(), e.line as int),
        found is Ok <==> forall|j: int|
            0 <= j < lines@.len() ==> !is_refused(#[trigger] lines.deep_view()[j]),
{
    let ghost all = lines.deep_view();
    let mut map: AssocMap<Region, usize> = AssocMap::new();
    let mut i: usize = 0;
    while i < lines.len()
        invariant
            i <= lines.len(),
            all == lines.deep_view(),
            all.len() == lines@.len(),
            map.wf(),
            map@ == recovered(all, i as int),
            forall|j: int| 0 <= j < i ==> !is_refused(#[trigger] all[j]),
        decreases lines.len() - i,
    {
        let line = lines[i].as_str();
        let groups = match captures(variable_definition(), line) {
            Ok(groups) => groups,
            Err(_) => {
                return Err(RecoveryError { line: i });
            },
        };
        match definition_of(&groups) {
            Some((local, typ)) => {
                let matches = match all_captures(region_name(), typ.as_str()) {
                    Ok(matches) => matches,
                    Err(_) => {
                        return Err(RecoveryError { line: i });
                    },
                };
                let regions = regions_of(&matches);
                give_local(&mut map, &regions, local);
            },
            None => {},
        }
        i += 1;
    }
    Ok(map)
}

} // verus!
