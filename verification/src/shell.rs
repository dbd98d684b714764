//! The state the command shell keeps besides the editor: the numeric
//! register that counts repeats, the command-line buffer, the aliases of
//! command names, and the recorded command lists that can be played back.
use vstd::prelude::*;

use crate::input_interface::inputter::{copy_strings, texts};
use crate::input_interface::modes::same_text;
use crate::text::{chars_of, push_char, push_str};

verus! {

/// The register once the digit `digit` is typed: the number so far with
/// the digit appended, or the digit alone when the register was empty.
pub fn register_push(reg: Option<usize>, digit: usize) -> (r: Option<usize>)
    requires
        digit <= 9,
        reg matches Some(n) ==> n * 10 + digit <= usize::MAX,
    ensures
        r == Some(
            match reg {
                Some(n) => (n * 10 + digit) as usize,
                None => digit,
            },
        ),
{
    match reg {
        Some(n) => Some(n * 10 + digit),
        None => Some(digit),
    }
}

/// The number in the register, or `default` when it is empty.
pub fn register_fetch(reg: Option<usize>, default: usize) -> (r: usize)
    ensures
        r == match reg {
            Some(n) => n,
            None => default,
        },
{
    match reg {
        Some(n) => n,
        None => default,
    }
}

/// The command line once `input` is typed at its end (an empty command
/// line starts with `input`).
pub fn buffer_push(buffer: Option<String>, input: &str) -> (r: Option<String>)
    ensures
        r matches Some(s) && s@ == match buffer {
            Some(b) => b@ + input@,
            None => input@,
        },
{
    match buffer {
        Some(b) => {
            let mut b = b;
            push_str(&mut b, input);
            Some(b)
        },
        None => Some(input.to_owned()),
    }
}

/// The command line with its last character taken off, and that
/// character; a command line with nothing to take off is closed.
pub fn buffer_pop(buffer: Option<String>) -> (r: (Option<String>, Option<char>))
    ensures
        match buffer {
            Some(b) if b@.len() > 0 => r.0 matches Some(s) && s@ == b@.drop_last() && r.1 == Some(b@.last()),
            _ => r.0 is None && r.1 is None,
        },
{
    match buffer {
        Some(b) => {
            let chars = chars_of(b.as_str());
            if chars.len() == 0 {
                return (None, None);
            }
            let n = chars.len() - 1;
            let mut rest = String::new();
            let mut i: usize = 0;
            while i < n
                invariant
                    chars@ == b@,
                    n == chars@.len() - 1,
                    i <= n,
                    rest@ == b@.subrange(0, i as int),
                decreases n - i,
            {
                push_char(&mut rest, chars[i]);
                i += 1;
                proof {
                    assert(b@.subrange(0, i as int) =~= b@.subrange(0, i - 1).push(b@[i - 1]));
                }
            }
            proof {
                assert(b@.subrange(0, n as int) =~= b@.drop_last());
            }
            (Some(rest), Some(chars[n]))
        },
        None => (None, None),
    }
}

/// The aliases as (alias, command) texts.
pub open spec fn aliases_view(aliases: Seq<(String, String)>) -> Seq<(Seq<char>, Seq<char>)> {
    aliases.map_values(|a: (String, String)| (a.0@, a.1@))
}

/// The command that `alias` stands for: the latest entry for it.
pub open spec fn alias_of(aliases: Seq<(Seq<char>, Seq<char>)>, alias: Seq<char>) -> Option<Seq<char>>
    decreases aliases.len(),
{
    if aliases.len() == 0 {
        None
    } else if aliases.last().0 == alias {
        Some(aliases.last().1)
    } else {
        alias_of(aliases.drop_last(), alias)
    }
}

/// The command to run for `key`: `key` itself when it names a command
/// (`is_command`), else the command it is an alias of, else `key`.
pub open spec fn resolved_command(key: Seq<char>, is_command: bool, aliases: Seq<(Seq<char>, Seq<char>)>) -> Seq<char> {
    if is_command {
        key
    } else {
        match alias_of(aliases, key) {
            Some(c) => c,
            None => key,
        }
    }
}

/// Resolves `key` through the aliases.
pub fn resolve_command(key: &str, is_command: bool, aliases: &Vec<(String, String)>) -> (r: String)
    ensures
        r@ == resolved_command(key@, is_command, aliases_view(aliases@)),
{
    if is_command {
        return key.to_owned();
    }
    let ghost view = aliases_view(aliases@);
    proof {
        assert(view.subrange(0, view.len() as int) =~= view);
    }
    let mut i: usize = aliases.len();
    while i > 0
        invariant
            !is_command,
            i <= aliases@.len(),
            view == aliases_view(aliases@),
            alias_of(view.subrange(0, i as int), key@) == alias_of(view, key@),
        decreases i,
    {
        let ghost upto = view.subrange(0, i as int);
        proof {
            assert(upto.last() == (aliases@[i - 1].0@, aliases@[i - 1].1@));
            assert(upto.drop_last() =~= view.subrange(0, i - 1));
        }
        if same_text(aliases[i - 1].0.as_str(), key) {
            let found = aliases[i - 1].1.clone();
            proof {
                assert(upto.last().0 == key@);
                assert(alias_of(upto, key@) == Some(upto.last().1));
                assert(found@ == aliases@[i - 1].1@);
                assert(found@ == upto.last().1);
                assert(alias_of(view, key@) == Some(found@));
            }
            return found;
        }
        i -= 1;
    }
    proof {
        assert(view.subrange(0, 0) =~= Seq::<(Seq<char>, Seq<char>)>::empty());
    }
    key.to_owned()
}


/// The recorded command lists as (name, commands), each command its words.
pub type RecordsView = Seq<(Seq<char>, Seq<Seq<Seq<char>>>)>;

/// The commands recorded under `key`: the latest list with that name.
pub open spec fn recorded_under(lists: RecordsView, key: Seq<char>) -> Option<Seq<Seq<Seq<char>>>>
    decreases lists.len(),
{
    if lists.len() == 0 {
        None
    } else if lists.last().0 == key {
        Some(lists.last().1)
    } else {
        recorded_under(lists.drop_last(), key)
    }
}

/// Changing the latest list named `key` changes what is recorded under
/// `key` and nothing else.
proof fn lemma_recorded_update(lists: RecordsView, i: int, key: Seq<char>, e: (Seq<char>, Seq<Seq<Seq<char>>>))
    requires
        0 <= i < lists.len(),
        lists[i].0 == key,
        e.0 == key,
        forall|j: int| i < j < lists.len() ==> (#[trigger] lists[j]).0 != key,
    ensures
        recorded_under(lists, key) == Some(lists[i].1),
        recorded_under(lists.update(i, e), key) == Some(e.1),
        forall|k: Seq<char>| k != key ==> recorded_under(lists.update(i, e), k) == recorded_under(lists, k),
    decreases lists.len(),
{
    let u = lists.update(i, e);
    if i < lists.len() - 1 {
        assert(u.drop_last() =~= lists.drop_last().update(i, e));
        assert forall|j: int| i < j < lists.drop_last().len() implies (#[trigger] lists.drop_last()[j]).0 != key by {
            assert(lists.drop_last()[j] == lists[j]);
        }
        lemma_recorded_update(lists.drop_last(), i, key, e);
        assert(u.last() == lists.last());
        assert(lists.last().0 != key);
        assert forall|k: Seq<char>| k != key implies recorded_under(u, k) == recorded_under(lists, k) by {
            if lists.last().0 != k {
                assert(recorded_under(u, k) == recorded_under(u.drop_last(), k));
                assert(recorded_under(lists.drop_last().update(i, e), k) == recorded_under(lists.drop_last(), k));
                assert(recorded_under(lists, k) == recorded_under(lists.drop_last(), k));
            } else {
                assert(recorded_under(u, k) == Some(u.last().1));
                assert(recorded_under(lists, k) == Some(lists.last().1));
            }
        }
    } else {
        assert(u.drop_last() =~= lists.drop_last());
        assert forall|k: Seq<char>| k != key implies recorded_under(u, k) == recorded_under(lists, k) by {
            assert(recorded_under(u, k) == recorded_under(u.drop_last(), k));
            assert(recorded_under(lists, k) == recorded_under(lists.drop_last(), k));
        }
    }
}

/// The command lists recorded so far, by name.
pub struct Recordings {
    lists: Vec<(String, Vec<Vec<String>>)>,
}

impl Recordings {
    pub closed spec fn lists(&self) -> RecordsView {
        self.lists@.map_values(|l: (String, Vec<Vec<String>>)| (l.0@, l.1@.map_values(|c: Vec<String>| texts(c@))))
    }

    /// The commands recorded under `key`, if a list of that name was started.
    pub open spec fn recorded(&self, key: Seq<char>) -> Option<Seq<Seq<Seq<char>>>> {
        recorded_under(self.lists(), key)
    }

    pub fn new() -> (r: Recordings)
        ensures
            forall|k: Seq<char>| r.recorded(k) is None,
    {
        let r = Recordings { lists: Vec::new() };
        proof {
            assert(r.lists() =~= Seq::<(Seq<char>, Seq<Seq<Seq<char>>>)>::empty());
        }
        r
    }

    /// The index of the latest list named `key`, if any.
    fn latest_index(&self, key: &str) -> (r: Option<usize>)
        ensures
            match r {
                Some(i) => i < self.lists().len() && self.lists()[i as int].0 == key@ && forall|j: int|
                    i < j < self.lists().len() ==> (#[trigger] self.lists()[j]).0 != key@,
                None => self.recorded(key@) is None,
            },
    {
        let ghost view = self.lists();
        let mut i: usize = self.lists.len();
        while i > 0
            invariant
                i <= self.lists@.len(),
                view == self.lists(),
                view.len() == self.lists@.len(),
                forall|j: int| i <= j < view.len() ==> (#[trigger] view[j]).0 != key@,
            decreases i,
        {
            proof {
                assert(view[i - 1].0 == self.lists@[i - 1].0@);
            }
            if same_text(self.lists[i - 1].0.as_str(), key) {
                return Some(i - 1);
            }
            i -= 1;
        }
        proof {
            lemma_none_recorded(view, key@);
        }
        None
    }

    /// Starts an empty list under `key`, in place of any list of that name.
    pub fn start(&mut self, key: &str)
        ensures
            final(self).recorded(key@) == Some(Seq::<Seq<Seq<char>>>::empty()),
            forall|k: Seq<char>| k != key@ ==> final(self).recorded(k) == old(self).recorded(k),
    {
        let ghost before = self.lists();
        self.lists.push((key.to_owned(), Vec::new()));
        proof {
            let after = self.lists();
            let fresh = self.lists@.last().1@;
            assert(fresh.len() == 0);
            assert(fresh.map_values(|c: Vec<String>| texts(c@)) =~= Seq::<Seq<Seq<char>>>::empty());
            assert(after =~= before.push((key@, Seq::<Seq<Seq<char>>>::empty())));
            assert(after.drop_last() =~= before);
        }
    }

    /// Adds `command` to the end of the list under `key`; `false` (and
    /// nothing changed) when no list of that name was started.
    pub fn add(&mut self, key: &str, command: Vec<String>) -> (r: bool)
        ensures
            match old(self).recorded(key@) {
                Some(l) => r && final(self).recorded(key@) == Some(l.push(texts(command@))),
                None => !r && final(self).recorded(key@) is None,
            },
            forall|k: Seq<char>| k != key@ ==> final(self).recorded(k) == old(self).recorded(k),
    {
        let ghost before = self.lists();
        match self.latest_index(key) {
            Some(i) => {
                let ghost c = texts(command@);
                let mut entry = self.lists.remove(i);
                entry.1.push(command);
                self.lists.insert(i, entry);
                proof {
                    let e = (key@, before[i as int].1.push(c));
                    assert(entry.1@.map_values(|c: Vec<String>| texts(c@)) =~= before[i as int].1.push(c));
                    assert(self.lists() =~= before.update(i as int, e));
                    lemma_recorded_update(before, i as int, key@, e);
                }
                true
            },
            None => false,
        }
    }

    /// A copy of the commands recorded under `key` (none if no such list).
    pub fn commands(&self, key: &str) -> (r: Vec<Vec<String>>)
        ensures
            r@.map_values(|c: Vec<String>| texts(c@)) == match self.recorded(key@) {
                Some(l) => l,
                None => Seq::<Seq<Seq<char>>>::empty(),
            },
    {
        let mut out: Vec<Vec<String>> = Vec::new();
        match self.latest_index(key) {
            Some(i) => {
                proof {
                    lemma_recorded_update(self.lists(), i as int, key@, self.lists()[i as int]);
                }
                let list = &self.lists[i].1;
                let ghost target = self.lists()[i as int].1;
                let mut j: usize = 0;
                while j < list.len()
                    invariant
                        j <= list@.len(),
                        target == list@.map_values(|c: Vec<String>| texts(c@)),
                        out@.map_values(|c: Vec<String>| texts(c@)) =~= target.subrange(0, j as int),
                    decreases list@.len() - j,
                {
                    let copy = copy_strings(&list[j]);
                    let ghost before_out = out@;
                    proof {
                        assert(target[j as int] == texts(list@[j as int]@));
                    }
                    out.push(copy);
                    j += 1;
                    proof {
                        assert(out@ == before_out.push(copy));
                        assert(out@.map_values(|c: Vec<String>| texts(c@)) =~= before_out.map_values(
                            |c: Vec<String>| texts(c@),
                        ).push(texts(copy@)));
                        assert(target.subrange(0, j as int) =~= target.subrange(0, j - 1).push(target[j - 1]));
                    }
                }
                proof {
                    assert(target.subrange(0, list@.len() as int) =~= target);
                }
            },
            None => {
                proof {
                    assert(out@.map_values(|c: Vec<String>| texts(c@)) =~= Seq::<Seq<Seq<char>>>::empty());
                }
            },
        }
        out
    }

    /// How many commands are recorded under `key` (0 if no such list).
    pub fn count(&self, key: &str) -> (r: usize)
        ensures
            r == match self.recorded(key@) {
                Some(l) => l.len(),
                None => 0,
            },
    {
        match self.latest_index(key) {
            Some(i) => {
                proof {
                    lemma_recorded_update(self.lists(), i as int, key@, self.lists()[i as int]);
                }
                self.lists[i].1.len()
            },
            None => 0,
        }
    }
}

/// With no list named `key`, nothing is recorded under it.
proof fn lemma_none_recorded(lists: RecordsView, key: Seq<char>)
    requires
        forall|j: int| 0 <= j < lists.len() ==> (#[trigger] lists[j]).0 != key,
    ensures
        recorded_under(lists, key) is None,
    decreases lists.len(),
{
    if lists.len() > 0 {
        assert(lists.last() == lists[lists.len() - 1]);
        assert forall|j: int| 0 <= j < lists.drop_last().len() implies (#[trigger] lists.drop_last()[j]).0 != key by {
            assert(lists.drop_last()[j] == lists[j]);
        }
        lemma_none_recorded(lists.drop_last(), key);
    }
}

} // verus!
