//! Operation dispatcher: the decisions behind the four verbs. A request is
//! parsed from raw arguments; a drop picks the stored name for an existing
//! target; a recover refuses to overwrite; a listing renders one line per
//! scanned entry, showing a foreign name verbatim instead of crashing on
//! it. The shell around the library walks the batches, performs the
//! filesystem work, and reports each entry's outcome without aborting the
//! rest.

use crate::codec;
use crate::resolve;
use crate::store;
use crate::store::views_of;
use vstd::prelude::*;

verus! {

/// One of the five request verbs.
#[derive(Debug, Clone, Copy, PartialEq, Eq, Structural)]
pub enum Command {
    Drop,
    Delete,
    Recover,
    List,
    Help,
}

/// A parsed request: the verb, and the raw not-yet-resolved target paths.
#[derive(Debug, PartialEq, Eq)]
pub struct Cli {
    pub command: Command,
    pub filepaths: Vec<Vec<u8>>,
}

/// Why a request was rejected before any filesystem work.
#[derive(Debug, Clone, Copy, PartialEq, Eq, Structural)]
pub enum ParseError {
    MissingFilepaths,
}

pub open spec fn long_list_flag() -> Seq<u8> {
    seq![45u8, 45, 108, 105, 115, 116]
}

pub open spec fn short_list_flag() -> Seq<u8> {
    seq![45u8, 108]
}

pub open spec fn long_recover_flag() -> Seq<u8> {
    seq![45u8, 45, 114, 101, 99, 111, 118, 101, 114]
}

pub open spec fn short_recover_flag() -> Seq<u8> {
    seq![45u8, 114]
}

pub open spec fn long_delete_flag() -> Seq<u8> {
    seq![45u8, 45, 100, 101, 108, 101, 116, 101]
}

pub open spec fn short_delete_flag() -> Seq<u8> {
    seq![45u8, 100]
}

pub open spec fn long_help_flag() -> Seq<u8> {
    seq![45u8, 45, 104, 101, 108, 112]
}

pub open spec fn short_help_flag() -> Seq<u8> {
    seq![45u8, 104]
}

/// The verb named by the first argument: a known flag selects its verb,
/// anything else is a path to drop, and an empty request defaults to drop.
pub open spec fn spec_command(args: Seq<Seq<u8>>) -> Command {
    if args.len() == 0 {
        Command::Drop
    } else if args[0] == long_list_flag() || args[0] == short_list_flag() {
        Command::List
    } else if args[0] == long_recover_flag() || args[0] == short_recover_flag() {
        Command::Recover
    } else if args[0] == long_delete_flag() || args[0] == short_delete_flag() {
        Command::Delete
    } else if args[0] == long_help_flag() || args[0] == short_help_flag() {
        Command::Help
    } else {
        Command::Drop
    }
}

/// The target paths of a request: everything after a verb flag, or every
/// argument when the first is already a path.
pub open spec fn spec_filepaths(args: Seq<Seq<u8>>) -> Seq<Seq<u8>> {
    match spec_command(args) {
        Command::List => Seq::empty(),
        Command::Help => Seq::empty(),
        Command::Drop => args,
        _ => args.skip(1),
    }
}

/// Whether a verb cannot act without target paths.
pub open spec fn needs_paths(c: Command) -> bool {
    c is Drop || c is Delete || c is Recover
}

fn is_list_flag(arg: &[u8]) -> (r: bool)
    ensures
        r == (arg@ == long_list_flag() || arg@ == short_list_flag()),
{
    if arg.len() == 2 {
        let r = arg[0] == 45 && arg[1] == 108;
        proof {
            if r {
                assert(arg@ =~= short_list_flag());
            }
        }
        r
    } else if arg.len() == 6 {
        let r = arg[0] == 45 && arg[1] == 45 && arg[2] == 108 && arg[3] == 105 && arg[4] == 115
            && arg[5] == 116;
        proof {
            if r {
                assert(arg@ =~= long_list_flag());
            }
        }
        r
    } else {
        false
    }
}

fn is_recover_flag(arg: &[u8]) -> (r: bool)
    ensures
        r == (arg@ == long_recover_flag() || arg@ == short_recover_flag()),
{
    if arg.len() == 2 {
        let r = arg[0] == 45 && arg[1] == 114;
        proof {
            if r {
                assert(arg@ =~= short_recover_flag());
            }
        }
        r
    } else if arg.len() == 9 {
        let r = arg[0] == 45 && arg[1] == 45 && arg[2] == 114 && arg[3] == 101 && arg[4] == 99
            && arg[5] == 111 && arg[6] == 118 && arg[7] == 101 && arg[8] == 114;
        proof {
            if r {
                assert(arg@ =~= long_recover_flag());
            }
        }
        r
    } else {
        false
    }
}

fn is_delete_flag(arg: &[u8]) -> (r: bool)
    ensures
        r == (arg@ == long_delete_flag() || arg@ == short_delete_flag()),
{
    if arg.len() == 2 {
        let r = arg[0] == 45 && arg[1] == 100;
        proof {
            if r {
                assert(arg@ =~= short_delete_flag());
            }
        }
        r
    } else if arg.len() == 8 {
        let r = arg[0] == 45 && arg[1] == 45 && arg[2] == 100 && arg[3] == 101 && arg[4] == 108
            && arg[5] == 101 && arg[6] == 116 && arg[7] == 101;
        proof {
            if r {
                assert(arg@ =~= long_delete_flag());
            }
        }
        r
    } else {
        false
    }
}

fn is_help_flag(arg: &[u8]) -> (r: bool)
    ensures
        r == (arg@ == long_help_flag() || arg@ == short_help_flag()),
{
    if arg.len() == 2 {
        let r = arg[0] == 45 && arg[1] == 104;
        proof {
            if r {
                assert(arg@ =~= short_help_flag());
            }
        }
        r
    } else if arg.len() == 6 {
        let r = arg[0] == 45 && arg[1] == 45 && arg[2] == 104 && arg[3] == 101 && arg[4] == 108
            && arg[5] == 112;
        proof {
            if r {
                assert(arg@ =~= long_help_flag());
            }
        }
        r
    } else {
        false
    }
}

/// Clones the arguments from index `from` on.
fn clone_paths(args: &Vec<Vec<u8>>, from: usize) -> (r: Vec<Vec<u8>>)
    requires
        from <= args@.len(),
    ensures
        views_of(r@) == views_of(args@).skip(from as int),
{
    let mut r: Vec<Vec<u8>> = Vec::new();
    let mut i: usize = from;
    while i < args.len()
        invariant
            from <= i <= args@.len(),
            views_of(r@) == views_of(args@).subrange(from as int, i as int),
        decreases args@.len() - i,
    {
        let ghost prev = r@;
        r.push(args[i].clone());
        proof {
            assert(views_of(r@) =~= views_of(prev).push(args@[i as int]@));
            assert(views_of(args@).subrange(from as int, i as int + 1) =~= views_of(
                args@,
            ).subrange(from as int, i as int).push(args@[i as int]@));
        }
        i += 1;
    }
    proof {
        assert(views_of(args@).subrange(from as int, args@.len() as int) =~= views_of(
            args@,
        ).skip(from as int));
    }
    r
}

/// Parses raw arguments into a request. A verb that needs target paths and
/// got none is rejected here, before anything touches the filesystem.
pub fn parse(args: &Vec<Vec<u8>>) -> (r: Result<Cli, ParseError>)
    ensures
        match r {
            Ok(cli) => {
                &&& cli.command == spec_command(views_of(args@))
                &&& views_of(cli.filepaths@) == spec_filepaths(views_of(args@))
                &&& (needs_paths(cli.command) ==> cli.filepaths@.len() > 0)
            },
            Err(e) => {
                &&& e == ParseError::MissingFilepaths
                &&& needs_paths(spec_command(views_of(args@)))
                &&& spec_filepaths(views_of(args@)).len() == 0
            },
        },
{
    if args.len() == 0 {
        return Err(ParseError::MissingFilepaths);
    }
    let first = &args[0];
    proof {
        assert(views_of(args@)[0] == first@);
    }
    if is_list_flag(first.as_slice()) {
        Ok(Cli { command: Command::List, filepaths: Vec::new() })
    } else if is_recover_flag(first.as_slice()) {
        let paths = clone_paths(args, 1);
        if paths.len() == 0 {
            Err(ParseError::MissingFilepaths)
        } else {
            Ok(Cli { command: Command::Recover, filepaths: paths })
        }
    } else if is_delete_flag(first.as_slice()) {
        let paths = clone_paths(args, 1);
        if paths.len() == 0 {
            Err(ParseError::MissingFilepaths)
        } else {
            Ok(Cli { command: Command::Delete, filepaths: paths })
        }
    } else if is_help_flag(first.as_slice()) {
        Ok(Cli { command: Command::Help, filepaths: Vec::new() })
    } else {
        let paths = clone_paths(args, 0);
        proof {
            assert(views_of(args@).skip(0) =~= views_of(args@));
        }
        Ok(Cli { command: Command::Drop, filepaths: paths })
    }
}

/// What `list` prints for one scanned name: the decoded original path, or
/// the raw stored name verbatim when it cannot be decoded.
pub open spec fn list_line(name: Seq<u8>) -> Seq<u8> {
    match codec::spec_decode(name) {
        Some(e) => e.2,
        None => name,
    }
}

pub open spec fn spec_list(names: Seq<Seq<u8>>) -> Seq<Seq<u8>> {
    names.map_values(|n: Seq<u8>| list_line(n))
}

/// One output line per scanned entry, in scan order. A foreign or
/// unparseable name is shown rather than dropped, and never aborts the
/// listing.
pub fn list_lines(names: &Vec<Vec<u8>>) -> (r: Vec<Vec<u8>>)
    ensures
        views_of(r@) == spec_list(views_of(names@)),
{
    let mut r: Vec<Vec<u8>> = Vec::new();
    let mut i: usize = 0;
    while i < names.len()
        invariant
            0 <= i <= names@.len(),
            views_of(r@) == spec_list(views_of(names@).take(i as int)),
        decreases names@.len() - i,
    {
        let name = &names[i];
        let ghost prev = r@;
        match codec::decode(name.as_slice()) {
            Some(e) => {
                r.push(e.original_path);
            },
            None => {
                r.push(name.clone());
            },
        }
        proof {
            assert(views_of(names@)[i as int] == name@);
            assert(views_of(r@) =~= views_of(prev).push(list_line(name@)));
            assert(views_of(names@).take(i as int + 1) =~= views_of(names@).take(
                i as int,
            ).push(name@));
            assert(spec_list(views_of(names@).take(i as int + 1)) =~= spec_list(
                views_of(names@).take(i as int),
            ).push(list_line(name@)));
        }
        i += 1;
    }
    proof {
        assert(views_of(names@).take(names@.len() as int) =~= views_of(names@));
    }
    r
}

/// Dropping an entry adds exactly one line to the listing: its original
/// path, after every line the store produced before.
pub proof fn lemma_drop_then_list(names: Seq<Seq<u8>>, t: u64, serial: u64, p: Seq<u8>)
    ensures
        spec_list(names.push(codec::encoded_name(t, serial, p))) == spec_list(names).push(p),
{
    codec::lemma_round_trip(t, serial, p);
    assert(spec_list(names.push(codec::encoded_name(t, serial, p))) =~= spec_list(names).push(p));
}

/// A fresh drop is listed exactly once: when no line of the old listing
/// named `p`, the new listing names it at the new entry's place and
/// nowhere else.
pub proof fn lemma_listed_exactly_once(names: Seq<Seq<u8>>, t: u64, serial: u64, p: Seq<u8>)
    requires
        forall|i: int| 0 <= i < names.len() ==> list_line(#[trigger] names[i]) != p,
    ensures
        spec_list(names.push(codec::encoded_name(t, serial, p))).len() == names.len() + 1,
        spec_list(names.push(codec::encoded_name(t, serial, p)))[names.len() as int] == p,
        forall|i: int|
            0 <= i < names.len() ==> spec_list(names.push(codec::encoded_name(t, serial, p)))[i]
                != p,
{
    lemma_drop_then_list(names, t, serial, p);
}

/// A recovered or purged entry leaves the listing: once every entry for
/// `p` is out of the store, every remaining line that decodes at all names
/// a different path. (A foreign, undecodable name is shown verbatim and is
/// no claim about `p`.)
pub proof fn lemma_gone_entries_not_listed(names: Seq<Seq<u8>>, p: Seq<u8>, i: int)
    requires
        0 <= i < store::without_matches(names, p).len(),
        codec::spec_decode(store::without_matches(names, p)[i]) is Some,
    ensures
        list_line(store::without_matches(names, p)[i]) != p,
{
    names.lemma_filter_pred(|n: Seq<u8>| !store::decodes_to_path(n, p), i);
}

/// Per-entry recover policy: an entry whose original path exists again is
/// refused, so that nothing is ever overwritten; only a free path is
/// restored.
#[derive(Debug, Clone, Copy, PartialEq, Eq, Structural)]
pub enum RecoverAction {
    RefuseExisting,
    Restore,
}

pub fn recover_action(target_exists: bool) -> (r: RecoverAction)
    ensures
        (r is RefuseExisting) <==> target_exists,
{
    if target_exists {
        RecoverAction::RefuseExisting
    } else {
        RecoverAction::Restore
    }
}

/// The plan for dropping one target.
#[derive(Debug, PartialEq, Eq)]
pub enum DropPlan {
    /// The target does not exist: reported, and the batch continues.
    NotFound,
    /// Relocate the target to this stored name inside the holding store.
    Store(Vec<u8>),
}

/// Plans one drop: a missing target is rejected; an existing one gets a
/// stored name that encodes its absolute path — the canonical form when
/// the filesystem yielded one, the resolved path otherwise — under the
/// smallest serial no present holding entry uses.
pub fn plan_drop(
    now: u64,
    target_exists: bool,
    resolved_path: Vec<u8>,
    canonical: Option<Vec<u8>>,
    holding: &Vec<Vec<u8>>,
) -> (r: DropPlan)
    ensures
        (r is NotFound) <==> !target_exists,
        (match r {
            DropPlan::NotFound => !target_exists,
            DropPlan::Store(stored) => {
                let abs = (match canonical {
                    Some(c) => c@,
                    None => resolved_path@,
                });
                &&& target_exists
                &&& store::chosen_name(stored@, now, abs, views_of(holding@))
            },
        }),
{
    if !target_exists {
        return DropPlan::NotFound;
    }
    let abs = resolve::canonical_or_resolved(resolved_path, canonical);
    let stored = store::fresh_name(now, abs.as_slice(), holding);
    DropPlan::Store(stored)
}

} // verus!
