//! Command line: `lan_chat [NAME] [--iface INDEX] [--group ADDR] [--port PORT]`.

use crate::net::{DEFAULT_GROUP, DEFAULT_PORT};
use crate::text::{number, only_digits_are_numbers, parse_number, same, views};
use vstd::prelude::*;
use vstd::string::*;

verus! {

/// What to run with.
#[derive(Debug)]
pub struct Args {
    pub name: String,
    pub group: [u16; 8],
    pub port: u16,
    /// The interface to use; 0 means all of them.
    pub iface: u32,
}

#[verifier::ext_equal]
pub struct ArgsView {
    pub name: Seq<char>,
    pub group: [u16; 8],
    pub port: u16,
    pub iface: u32,
}

impl View for Args {
    type V = ArgsView;

    open spec fn view(&self) -> ArgsView {
        ArgsView { name: self.name@, group: self.group, port: self.port, iface: self.iface }
    }
}

/// Whether a word is an option rather than a name.
pub open spec fn is_option(word: Seq<char>) -> bool {
    word.len() >= 2 && word[0] == '-' && word[1] == '-'
}

pub open spec fn asks_for_help(word: Seq<char>) -> bool {
    word == "--help"@ || word == "-h"@
}

/// The settings after the words from number `i` on, on top of `acc`; none if
/// help is asked for. An option takes the next word as its value. A value that
/// is no number gives the default; one that is no address changes nothing. Of
/// the other words, those that are no options set the name, and unknown options
/// are ignored.
pub open spec fn settings(
    words: Seq<Seq<char>>,
    groups: Seq<Option<[u16; 8]>>,
    i: int,
    acc: ArgsView,
) -> Option<ArgsView>
    decreases words.len() - i,
{
    if i >= words.len() {
        Some(acc)
    } else {
        let word = words[i];
        let last = i + 1 >= words.len();
        if word == "--iface"@ {
            if last {
                Some(acc)
            } else {
                let iface = match number(words[i + 1], u32::MAX as nat) {
                    Some(n) => n as u32,
                    None => 0,
                };
                settings(words, groups, i + 2, ArgsView { iface, ..acc })
            }
        } else if word == "--group"@ {
            if last {
                Some(acc)
            } else {
                let group = match groups[i + 1] {
                    Some(g) => g,
                    None => acc.group,
                };
                settings(words, groups, i + 2, ArgsView { group, ..acc })
            }
        } else if word == "--port"@ {
            if last {
                Some(acc)
            } else {
                let port = match number(words[i + 1], u16::MAX as nat) {
                    Some(n) => n as u16,
                    None => DEFAULT_PORT,
                };
                settings(words, groups, i + 2, ArgsView { port, ..acc })
            }
        } else if asks_for_help(word) {
            None
        } else if !is_option(word) {
            settings(words, groups, i + 1, ArgsView { name: word, ..acc })
        } else {
            settings(words, groups, i + 1, acc)
        }
    }
}

/// The settings without any words on the command line.
pub open spec fn defaults(host: Seq<char>) -> ArgsView {
    ArgsView { name: host, group: DEFAULT_GROUP, port: DEFAULT_PORT, iface: 0 }
}

fn starts_with_dashes(word: &str) -> (r: bool)
    ensures
        r == is_option(word@),
{
    word.unicode_len() >= 2 && word.get_char(0) == '-' && word.get_char(1) == '-'
}

/// Reads the words of the command line. `groups` gives the IPv6 address that
/// each word stands for, if it does; `host` is the name to go by unless another
/// is given. The result is `None` if help is asked for.
pub fn parse_args(words: &Vec<String>, groups: &Vec<Option<[u16; 8]>>, host: String) -> (r: Option<Args>)
    requires
        groups@.len() == words@.len(),
    ensures
        match r {
            Some(args) => settings(views(words@), groups@, 0, defaults(host@)) == Some(args@),
            None => settings(views(words@), groups@, 0, defaults(host@)) is None,
        },
{
    let ghost all = views(words@);
    let ghost want = settings(all, groups@, 0, defaults(host@));
    let mut args = Args { name: host, group: DEFAULT_GROUP, port: DEFAULT_PORT, iface: 0 };
    let n = words.len();
    let mut i: usize = 0;
    while i < n
        invariant
            i <= n,
            n == words@.len(),
            groups@.len() == words@.len(),
            all == views(words@),
            want == settings(all, groups@, 0, defaults(host@)),
            want == settings(all, groups@, i as int, args@),
        decreases n - i,
    {
        let word = words[i].as_str();
        let last = n - i == 1;
        assert(all[i as int] == word@);
        if same(word, "--iface") {
            if last {
                return Some(args);
            }
            args.iface = match parse_number(words[i + 1].as_str(), u32::MAX as u64) {
                Some(v) => v as u32,
                None => 0,
            };
            i += 2;
        } else if same(word, "--group") {
            if last {
                return Some(args);
            }
            if let Some(g) = groups[i + 1] {
                args.group = g;
            }
            i += 2;
        } else if same(word, "--port") {
            if last {
                return Some(args);
            }
            args.port = match parse_number(words[i + 1].as_str(), u16::MAX as u64) {
                Some(v) => v as u16,
                None => DEFAULT_PORT,
            };
            i += 2;
        } else if same(word, "--help") || same(word, "-h") {
            return None;
        } else {
            if !starts_with_dashes(word) {
                args.name = words[i].clone();
            }
            i += 1;
        }
    }
    Some(args)
}

pub open spec fn phone(host: Seq<char>) -> Seq<char> {
    if host.len() == 0 || host == "localhost"@ {
        "android"@
    } else {
        host
    }
}

/// The name to go by on a phone, whose host name mostly says nothing.
pub fn phone_name(host: String) -> (r: String)
    ensures
        r@ == phone(host@),
{
    if host.as_str().is_empty() || same(host.as_str(), "localhost") {
        "android".to_owned()
    } else {
        host
    }
}

// ---- laws -------------------------------------------------------------------

/// The option takes the next word as its value.
pub open spec fn takes_a_value(word: Seq<char>) -> bool {
    word == "--iface"@ || word == "--group"@ || word == "--port"@
}

proof fn lemma_options()
    ensures
        "--iface"@.len() == 7 && is_option("--iface"@) && "--iface"@[2] == 'i',
        "--group"@.len() == 7 && is_option("--group"@) && "--group"@[2] == 'g',
        "--port"@.len() == 6 && is_option("--port"@) && "--port"@[2] == 'p',
        "--help"@.len() == 6 && is_option("--help"@) && "--help"@[2] == 'h',
        "-h"@.len() == 2 && "-h"@[1] == 'h',
{
    reveal_strlit("--iface");
    reveal_strlit("--group");
    reveal_strlit("--port");
    reveal_strlit("--help");
    reveal_strlit("-h");
}

/// A command line takes effect from left to right: what stands behind words that
/// do not end in an option that wants a value is read on top of what those words
/// set; and nothing stands behind a call for help.
pub proof fn words_take_effect_in_order(
    first: Seq<Seq<char>>,
    first_groups: Seq<Option<[u16; 8]>>,
    then: Seq<Seq<char>>,
    then_groups: Seq<Option<[u16; 8]>>,
    acc: ArgsView,
)
    requires
        first_groups.len() == first.len(),
        then_groups.len() == then.len(),
        first.len() > 0 ==> !takes_a_value(first.last()),
    ensures
        settings(first + then, first_groups + then_groups, 0, acc) == match settings(
            first,
            first_groups,
            0,
            acc,
        ) {
            Some(mid) => settings(then, then_groups, 0, mid),
            None => None,
        },
{
    lemma_in_order(first, first_groups, then, then_groups, 0, acc);
    if let Some(mid) = settings(first, first_groups, 0, acc) {
        let n = first.len() as int;
        lemma_shift(first + then, first_groups + then_groups, n, 0, mid);
        assert((first + then).skip(n) =~= then);
        assert((first_groups + then_groups).skip(n) =~= then_groups);
    }
}

proof fn lemma_in_order(
    first: Seq<Seq<char>>,
    first_groups: Seq<Option<[u16; 8]>>,
    then: Seq<Seq<char>>,
    then_groups: Seq<Option<[u16; 8]>>,
    i: int,
    acc: ArgsView,
)
    requires
        first_groups.len() == first.len(),
        then_groups.len() == then.len(),
        first.len() > 0 ==> !takes_a_value(first.last()),
        0 <= i <= first.len(),
    ensures
        settings(first + then, first_groups + then_groups, i, acc) == match settings(
            first,
            first_groups,
            i,
            acc,
        ) {
            Some(mid) => settings(
                first + then,
                first_groups + then_groups,
                first.len() as int,
                mid,
            ),
            None => None,
        },
    decreases first.len() - i,
{
    let all = first + then;
    let groups = first_groups + then_groups;
    if i < first.len() {
        let word = first[i];
        assert(all[i] == word);
        if takes_a_value(word) {
            assert(i + 1 < first.len());
            assert(all[i + 1] == first[i + 1]);
            assert(groups[i + 1] == first_groups[i + 1]);
            let iface = match number(first[i + 1], u32::MAX as nat) {
                Some(n) => n as u32,
                None => 0,
            };
            let group = match first_groups[i + 1] {
                Some(g) => g,
                None => acc.group,
            };
            let port = match number(first[i + 1], u16::MAX as nat) {
                Some(n) => n as u16,
                None => DEFAULT_PORT,
            };
            lemma_in_order(
                first,
                first_groups,
                then,
                then_groups,
                i + 2,
                ArgsView { iface, ..acc },
            );
            lemma_in_order(
                first,
                first_groups,
                then,
                then_groups,
                i + 2,
                ArgsView { group, ..acc },
            );
            lemma_in_order(
                first,
                first_groups,
                then,
                then_groups,
                i + 2,
                ArgsView { port, ..acc },
            );
        } else {
            lemma_in_order(first, first_groups, then, then_groups, i + 1, acc);
            lemma_in_order(
                first,
                first_groups,
                then,
                then_groups,
                i + 1,
                ArgsView { name: word, ..acc },
            );
        }
    }
}

/// Words that were read do not matter any more.
proof fn lemma_shift(
    words: Seq<Seq<char>>,
    groups: Seq<Option<[u16; 8]>>,
    k: int,
    i: int,
    acc: ArgsView,
)
    requires
        groups.len() == words.len(),
        0 <= k <= words.len(),
        0 <= i,
    ensures
        settings(words, groups, k + i, acc) == settings(words.skip(k), groups.skip(k), i, acc),
    decreases words.len() - k - i,
{
    let rest = words.skip(k);
    let more = groups.skip(k);
    if i < rest.len() {
        let word = rest[i];
        assert(words[k + i] == word);
        if takes_a_value(word) && i + 1 < rest.len() {
            assert(words[k + i + 1] == rest[i + 1]);
            assert(groups[k + i + 1] == more[i + 1]);
            let iface = match number(rest[i + 1], u32::MAX as nat) {
                Some(n) => n as u32,
                None => 0,
            };
            let group = match more[i + 1] {
                Some(g) => g,
                None => acc.group,
            };
            let port = match number(rest[i + 1], u16::MAX as nat) {
                Some(n) => n as u16,
                None => DEFAULT_PORT,
            };
            lemma_shift(words, groups, k, i + 2, ArgsView { iface, ..acc });
            lemma_shift(words, groups, k, i + 2, ArgsView { group, ..acc });
            lemma_shift(words, groups, k, i + 2, ArgsView { port, ..acc });
        } else {
            lemma_shift(words, groups, k, i + 1, acc);
            lemma_shift(words, groups, k, i + 1, ArgsView { name: word, ..acc });
        }
    }
}

/// A word that does not start with two dashes is the name to go by, unless it is
/// the short call for help; one that does sets nothing by itself.
pub proof fn a_word_is_the_name(word: Seq<char>, group: Option<[u16; 8]>, acc: ArgsView)
    ensures
        ({
            let r = settings(seq![word], seq![group], 0, acc);
            let dashes = word.len() >= 2 && word[0] == '-' && word[1] == '-';
            &&& word == "--help"@ || word == "-h"@ ==> r is None
            &&& word != "-h"@ && !dashes ==> r is Some && r->0.name == word && r->0.group
                == acc.group && r->0.port == acc.port && r->0.iface == acc.iface
            &&& word != "--help"@ && dashes ==> r == Some(acc)
        }),
{
    lemma_options();
    reveal_with_fuel(settings, 3);
}

/// An option and its value set what the option names and nothing else: a number
/// that fits, or else the default; an address, or else what it was.
pub proof fn options_set_what_they_name(value: Seq<char>, group: Option<[u16; 8]>, acc: ArgsView)
    ensures
        ({
            let r = settings(seq!["--iface"@, value], seq![None, group], 0, acc);
            &&& r is Some
            &&& number(value, 0xffff_ffff) matches Some(n) ==> r->0.iface == n
            &&& number(value, 0xffff_ffff) is None ==> r->0.iface == 0
            &&& r->0.name == acc.name && r->0.group == acc.group && r->0.port == acc.port
        }),
        ({
            let r = settings(seq!["--port"@, value], seq![None, group], 0, acc);
            &&& r is Some
            &&& number(value, 0xffff) matches Some(n) ==> r->0.port == n
            &&& number(value, 0xffff) is None ==> r->0.port == 45654
            &&& r->0.name == acc.name && r->0.group == acc.group && r->0.iface == acc.iface
        }),
        ({
            let r = settings(seq!["--group"@, value], seq![None, group], 0, acc);
            &&& r is Some
            &&& group matches Some(g) ==> r->0.group == g
            &&& group is None ==> r->0.group == acc.group
            &&& r->0.name == acc.name && r->0.port == acc.port && r->0.iface == acc.iface
        }),
{
    lemma_options();
    reveal_with_fuel(settings, 3);
    only_digits_are_numbers(value, 0xffff_ffff);
    only_digits_are_numbers(value, 0xffff);
}

/// Without words one goes by the name of the host, on all interfaces.
pub proof fn no_words_leave_the_defaults(host: Seq<char>)
    ensures
        settings(Seq::empty(), Seq::empty(), 0, defaults(host)) == Some(defaults(host)),
        defaults(host).name == host,
        defaults(host).iface == 0,
        defaults(host).port == 45654,
{
}

/// A phone goes by the name of its host if that says anything, and never by
/// nothing or by what every host is called.
pub proof fn phones_have_a_telling_name(host: Seq<char>)
    ensures
        phone(host).len() > 0,
        phone(host) != "localhost"@,
        host.len() > 0 && host != "localhost"@ ==> phone(host) == host,
        host.len() == 0 || host == "localhost"@ ==> phone(host) == "android"@,
{
    reveal_strlit("android");
    reveal_strlit("localhost");
    assert("android"@.len() == 7 && "localhost"@.len() == 9);
}

} // verus!
