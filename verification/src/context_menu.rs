//! The "Search with InSearch" entry of the Windows Explorer context menu:
//! what is written for it, and how its state is judged. Off Windows there is
//! no such menu.
use vstd::prelude::*;
use crate::strings::{push_char, split_chars, split_spec};

verus! {

#[verifier::external_type_specification]
#[verifier::external_body]
pub struct ExIoError(std::io::Error);

/// Whether the integration is installed, and whether it still points here.
#[derive(Clone, Copy, Debug, PartialEq, Eq, Structural)]
pub enum Status {
    /// No entry installed.
    NotRegistered,
    /// Installed and pointing at this executable.
    Registered,
    /// Installed but pointing at a different (moved or old) executable, or
    /// only partly installed.
    Stale,
    /// Could not be determined.
    Error,
}

/// The menu label.
pub const LABEL: &'static str = "Search with InSearch";

/// The state from what was found: `present` of the `total` entries exist,
/// and `stale` says whether one of them points elsewhere.
pub fn status_of(present: usize, total: usize, stale: bool) -> (s: Status)
    ensures
        s == if present == 0 {
            Status::NotRegistered
        } else if stale || present < total {
            Status::Stale
        } else {
            Status::Registered
        },
{
    if present == 0 {
        Status::NotRegistered
    } else if stale || present < total {
        Status::Stale
    } else {
        Status::Registered
    }
}

/// The command an entry runs: `"<exe>" "<arg>"`.
pub open spec fn command_spec(exe: Seq<char>, arg: Seq<char>) -> Seq<char> {
    seq!['"'] + exe + seq!['"', ' ', '"'] + arg + seq!['"']
}

/// The command an entry runs (see [`command_spec`]).
pub fn command_value(exe: &str, arg: &str) -> (r: String)
    ensures
        r@ == command_spec(exe@, arg@),
{
    let mut r = String::new();
    push_char(&mut r, '"');
    r.append(exe);
    push_char(&mut r, '"');
    push_char(&mut r, ' ');
    push_char(&mut r, '"');
    r.append(arg);
    push_char(&mut r, '"');
    assert(r@ =~= command_spec(exe@, arg@));
    r
}

/// The executable a command names: its first double-quoted token.
pub open spec fn command_exe_spec(command: Seq<char>) -> Option<Seq<char>> {
    let p = split_spec(command, seq!['"']);
    if p.len() > 1 { Some(p[1]) } else { None }
}

/// The executable a command names (see [`command_exe_spec`]).
pub fn command_exe(command: &str) -> (r: Option<&str>)
    ensures
        r is Some <==> command_exe_spec(command@) is Some,
        r matches Some(e) ==> e@ == command_exe_spec(command@)->0,
{
    let p = split_chars(command, &['"']);
    proof {
        assert(seq!['"'] =~= ['"']@);
    }
    if p.len() > 1 {
        assert(p@.map_values(|w: &str| w@)[1] == p@[1]@);
        Some(p[1])
    } else {
        None
    }
}

/// Splitting on a character that `t` does not hold leaves `t` as the last
/// piece, after the pieces of what came before.
proof fn lemma_split_append(pre: Seq<char>, t: Seq<char>, d: char)
    requires
        forall|i: int| 0 <= i < t.len() ==> t[i] != d,
    ensures
        split_spec(pre + t, seq![d]).len() == split_spec(pre, seq![d]).len(),
        split_spec(pre + t, seq![d]).drop_last() == split_spec(pre, seq![d]).drop_last(),
        split_spec(pre + t, seq![d]).last() == split_spec(pre, seq![d]).last() + t,
    decreases t.len(),
{
    crate::strings::lemma_split_nonempty(pre, seq![d]);
    if t.len() == 0 {
        assert(pre + t =~= pre);
    } else {
        let u = t.drop_last();
        lemma_split_append(pre, u, d);
        assert((pre + t).drop_last() =~= pre + u);
        assert((pre + t).last() == t.last());
        assert(!seq![d].contains(t.last())) by {
            if seq![d].contains(t.last()) {
                assert(t[t.len() - 1] == d);
            }
        }
        crate::strings::lemma_split_nonempty(pre + u, seq![d]);
        let p = split_spec(pre + u, seq![d]);
        assert(split_spec(pre + t, seq![d]) == p.update(p.len() - 1, p.last().push(t.last())));
        assert(split_spec(pre + t, seq![d]).drop_last() =~= p.drop_last());
        assert(split_spec(pre, seq![d]).last() + t =~= (split_spec(pre, seq![d]).last() + u).push(t.last()));
    }
}

/// Reading the executable back out of a command written for it gives that
/// executable, when its path holds no double quote.
pub proof fn law_command_names_exe(exe: Seq<char>, arg: Seq<char>)
    requires
        forall|i: int| 0 <= i < exe.len() ==> exe[i] != '"',
    ensures
        command_exe_spec(command_spec(exe, arg)) == Some(exe),
{
    let e = Seq::<char>::empty();
    let q = seq!['"'];
    assert(split_spec(e, q) == seq![e]);
    assert(split_spec(q, q) =~= seq![e, e]) by {
        assert(q.drop_last() =~= e);
        assert(q.last() == '"');
    }
    lemma_split_append(q, exe, '"');
    let c2 = q + exe + q;
    assert(c2.drop_last() =~= q + exe);
    assert(c2.last() == '"');
    let p2 = split_spec(c2, q);
    assert(p2 == split_spec(q + exe, q).push(e));
    assert(p2.len() == 3);
    assert(p2[1] =~= exe);
    let full = command_spec(exe, arg);
    lemma_split_prefix(c2, full.subrange(c2.len() as int, full.len() as int));
    assert(full =~= c2 + full.subrange(c2.len() as int, full.len() as int));
}

/// Appending text only changes the last piece of a split and adds pieces
/// after it: the earlier pieces stay.
proof fn lemma_split_prefix(a: Seq<char>, b: Seq<char>)
    ensures
        split_spec(a + b, seq!['"']).len() >= split_spec(a, seq!['"']).len(),
        forall|i: int| 0 <= i < split_spec(a, seq!['"']).len() - 1
            ==> #[trigger] split_spec(a + b, seq!['"'])[i] == split_spec(a, seq!['"'])[i],
    decreases b.len(),
{
    crate::strings::lemma_split_nonempty(a, seq!['"']);
    if b.len() == 0 {
        assert(a + b =~= a);
    } else {
        lemma_split_prefix(a, b.drop_last());
        assert((a + b).drop_last() =~= a + b.drop_last());
        crate::strings::lemma_split_nonempty(a + b.drop_last(), seq!['"']);
    }
}

/// `io::Error::new(ErrorKind::Unsupported, ..)`: installing the entry is not
/// possible off Windows. The error is opaque here, so its kind is not stated.
#[verifier::external_body]
fn unsupported_error() -> std::io::Error {
    std::io::Error::new(std::io::ErrorKind::Unsupported, "the Explorer context menu is Windows-only")
}

/// Installs the entry: off Windows this always fails as unsupported.
pub fn register() -> (r: Result<(), std::io::Error>)
    ensures
        r is Err,
{
    Err(unsupported_error())
}

/// Removes the entry: off Windows there is nothing to remove.
pub fn unregister() -> (r: Result<(), std::io::Error>)
    ensures
        r is Ok,
{
    Ok(())
}

/// Whether the entry is installed: off Windows it never is.
pub fn status() -> (s: Status)
    ensures
        s == Status::NotRegistered,
{
    Status::NotRegistered
}

} // verus!
