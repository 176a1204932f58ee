//! What the arguments of the program ask for.

use vstd::prelude::*;

use crate::chars;
use crate::lists;
use crate::text;

verus! {

/// How the reports are shown.
#[derive(Clone, Copy, Debug, PartialEq, Eq, Structural)]
pub enum Output {
    Json,
    Markdown,
    Text,
}

/// The domains that rules have to relate to.
pub enum DomainChoice {
    /// No domains were asked for: every rule counts.
    All,
    Listed(Vec<String>),
    /// Domains were asked for, and none was named.
    Missing,
}

/// Where a filter list is to be had.
pub enum Place {
    File(String),
    Url(String),
    /// Nowhere; the text says what is wrong.
    Unknown(String),
}

/// A filter list that is asked for: the name shown with its rules, the label that the report is
/// headed by, and where it is to be had.
pub struct Wanted {
    pub name: String,
    pub label: String,
    pub place: Place,
}

/// What is asked for when lists are to be scanned.
pub struct ScanCommand {
    pub wanted: Vec<Wanted>,
    pub option: Option<String>,
    pub domains: DomainChoice,
    pub probe: bool,
    pub show_supported: bool,
    pub output: Output,
}

/// What the arguments ask for.
pub enum Command {
    Help,
    Explain { rule: String, probe: bool },
    Scan(ScanCommand),
}

/// The view of a [`DomainChoice`].
pub enum DomainChoiceView {
    All,
    Listed(Seq<Seq<char>>),
    Missing,
}

/// The view of a [`Place`].
pub enum PlaceView {
    File(Seq<char>),
    Url(Seq<char>),
    Unknown(Seq<char>),
}

/// The view of a [`Wanted`].
pub struct WantedView {
    pub name: Seq<char>,
    pub label: Seq<char>,
    pub place: PlaceView,
}

/// The view of a [`ScanCommand`].
pub struct ScanCommandView {
    pub wanted: Seq<WantedView>,
    pub option: Option<Seq<char>>,
    pub domains: DomainChoiceView,
    pub probe: bool,
    pub show_supported: bool,
    pub output: Output,
}

/// The view of a [`Command`].
pub enum CommandView {
    Help,
    Explain { rule: Seq<char>, probe: bool },
    Scan(ScanCommandView),
}

impl View for DomainChoice {
    type V = DomainChoiceView;

    open spec fn view(&self) -> DomainChoiceView {
        match *self {
            DomainChoice::All => DomainChoiceView::All,
            DomainChoice::Listed(d) => DomainChoiceView::Listed(text::of_strings(d@)),
            DomainChoice::Missing => DomainChoiceView::Missing,
        }
    }
}

impl View for Place {
    type V = PlaceView;

    open spec fn view(&self) -> PlaceView {
        match *self {
            Place::File(s) => PlaceView::File(s@),
            Place::Url(s) => PlaceView::Url(s@),
            Place::Unknown(s) => PlaceView::Unknown(s@),
        }
    }
}

impl View for Wanted {
    type V = WantedView;

    open spec fn view(&self) -> WantedView {
        WantedView { name: self.name@, label: self.label@, place: self.place@ }
    }
}

impl View for ScanCommand {
    type V = ScanCommandView;

    open spec fn view(&self) -> ScanCommandView {
        ScanCommandView {
            wanted: wanted_of(self.wanted@),
            option: text::of_opt_string(self.option),
            domains: self.domains@,
            probe: self.probe,
            show_supported: self.show_supported,
            output: self.output,
        }
    }
}

impl View for Command {
    type V = CommandView;

    open spec fn view(&self) -> CommandView {
        match *self {
            Command::Help => CommandView::Help,
            Command::Explain { rule, probe } => CommandView::Explain { rule: rule@, probe },
            Command::Scan(s) => CommandView::Scan(s@),
        }
    }
}

/// The views of wanted lists.
pub open spec fn wanted_of(v: Seq<Wanted>) -> Seq<WantedView> {
    v.map_values(|w: Wanted| w@)
}

/// What stands behind the first occurrence of the flag, if anything does.
pub open spec fn value_behind(args: Seq<Seq<char>>, flag: Seq<char>) -> Option<Seq<char>>
    decreases args.len(),
{
    if args.len() < 2 {
        None
    } else if args.first() == flag {
        Some(args[1])
    } else {
        value_behind(args.skip(1), flag)
    }
}

/// What stands behind each occurrence of the flag.
pub open spec fn values_behind(args: Seq<Seq<char>>, flag: Seq<char>) -> Seq<Seq<char>>
    decreases args.len(),
{
    if args.len() < 2 {
        Seq::empty()
    } else if args.first() == flag {
        seq![args[1]] + values_behind(args.skip(1), flag)
    } else {
        values_behind(args.skip(1), flag)
    }
}

/// The list in the file at the path.
pub open spec fn wanted_file(path: Seq<char>) -> WantedView {
    WantedView { name: path, label: "file "@ + path, place: PlaceView::File(path) }
}

/// The list that a preset's name or a URL stands for.
pub open spec fn wanted_list(token: Seq<char>) -> WantedView {
    match lists::resolved(token) {
        Ok(url) => WantedView { name: token, label: url, place: PlaceView::Url(url) },
        Err(message) => WantedView {
            name: token,
            label: token,
            place: PlaceView::Unknown(message),
        },
    }
}

/// The list at the URL.
pub open spec fn wanted_url(url: Seq<char>) -> WantedView {
    WantedView { name: url, label: url, place: PlaceView::Url(url) }
}

/// The lists that are asked for: files first, then presets and URLs in `--list`, then URLs.
pub open spec fn all_wanted(args: Seq<Seq<char>>) -> Seq<WantedView> {
    values_behind(args, "--file"@).map_values(|p: Seq<char>| wanted_file(p)) + lists::tokens(
        values_behind(args, "--list"@),
    ).map_values(|t: Seq<char>| wanted_list(t)) + values_behind(args, "--url"@).map_values(
        |u: Seq<char>| wanted_url(u),
    )
}

/// The domains that are asked for, with commas between them.
pub open spec fn domain_choice(value: Option<Seq<char>>) -> DomainChoiceView {
    match value {
        None => DomainChoiceView::All,
        Some(v) => {
            let domains = lists::tokens(seq![v]);
            if domains.len() == 0 {
                DomainChoiceView::Missing
            } else {
                DomainChoiceView::Listed(domains)
            }
        },
    }
}

/// What the arguments ask for. Help comes before everything else, and the explanation of a rule
/// before a scan.
pub open spec fn command_of(args: Seq<Seq<char>>) -> CommandView {
    if args.contains("--help"@) || args.contains("-h"@) {
        CommandView::Help
    } else {
        match value_behind(args, "--rule"@) {
            Some(rule) => CommandView::Explain { rule, probe: args.contains("--probe"@) },
            None => CommandView::Scan(
                ScanCommandView {
                    wanted: all_wanted(args),
                    option: match value_behind(args, "--option"@) {
                        Some(o) => Some(text::lower(text::trim(o))),
                        None => None,
                    },
                    domains: domain_choice(value_behind(args, "--domains"@)),
                    probe: args.contains("--probe"@),
                    show_supported: args.contains("--show-supported"@),
                    output: if args.contains("--json"@) {
                        Output::Json
                    } else if args.contains("--markdown"@) {
                        Output::Markdown
                    } else {
                        Output::Text
                    },
                },
            ),
        }
    }
}

/// Is the flag among the arguments?
fn has_flag(args: &Vec<String>, flag: &str) -> (r: bool)
    ensures
        r == text::of_strings(args@).contains(flag@),
{
    chars::holds(args, chars::chars_of(flag).as_slice())
}

/// What stands behind the first occurrence of the flag, if anything does.
pub fn value_of(args: &Vec<String>, flag: &str) -> (r: Option<String>)
    ensures
        text::of_opt_string(r) == value_behind(text::of_strings(args@), flag@),
{
    let ghost all = text::of_strings(args@);
    let n: usize = args.len();
    let mut i: usize = 0;
    assert(all.skip(0) == all);
    while i < n && n - i >= 2
        invariant
            i <= n == args@.len(),
            all == text::of_strings(args@),
            value_behind(all, flag@) == value_behind(all.skip(i as int), flag@),
        decreases n - i,
    {
        assert(all[i as int] == args@[i as int]@);
        assert(all[i + 1] == args@[i + 1]@);
        if chars::same_str(args[i].as_str(), flag) {
            return Some(args[i + 1].clone());
        }
        assert(all.skip(i as int).skip(1) == all.skip(i + 1));
        i += 1;
    }
    None
}

/// What stands behind each occurrence of the flag.
pub fn values_of(args: &Vec<String>, flag: &str) -> (r: Vec<String>)
    ensures
        text::of_strings(r@) == values_behind(text::of_strings(args@), flag@),
{
    let mut out: Vec<String> = Vec::new();
    let ghost all = text::of_strings(args@);
    let n: usize = args.len();
    let mut i: usize = 0;
    assert(all.skip(0) == all);
    assert(text::of_strings(out@) + values_behind(all, flag@) == values_behind(all, flag@));
    while i < n && n - i >= 2
        invariant
            i <= n == args@.len(),
            all == text::of_strings(args@),
            values_behind(all, flag@) == text::of_strings(out@) + values_behind(
                all.skip(i as int),
                flag@,
            ),
        decreases n - i,
    {
        assert(all[i as int] == args@[i as int]@);
        assert(all[i + 1] == args@[i + 1]@);
        assert(all.skip(i as int).skip(1) == all.skip(i + 1));
        let ghost before = out@;
        if chars::same_str(args[i].as_str(), flag) {
            out.push(args[i + 1].clone());
            assert(text::of_strings(out@) == text::of_strings(before).push(all[i + 1]));
            assert(text::of_strings(before) + (seq![all[i + 1]] + values_behind(
                all.skip(i + 1),
                flag@,
            )) == text::of_strings(out@) + values_behind(all.skip(i + 1), flag@));
        }
        i += 1;
    }
    assert(text::of_strings(out@) + Seq::<Seq<char>>::empty() == text::of_strings(out@));
    out
}

/// The lists that are asked for.
fn wanted_lists(args: &Vec<String>) -> (r: Vec<Wanted>)
    ensures
        wanted_of(r@) == all_wanted(text::of_strings(args@)),
{
    let mut out: Vec<Wanted> = Vec::new();
    assert(wanted_of(out@) == Seq::<WantedView>::empty());

    let files: Vec<String> = values_of(args, "--file");
    let ghost told = text::of_strings(files@).map_values(|p: Seq<char>| wanted_file(p));
    let n: usize = files.len();
    let mut i: usize = 0;
    while i < n
        invariant
            i <= n == files@.len() == told.len(),
            told == text::of_strings(files@).map_values(|p: Seq<char>| wanted_file(p)),
            wanted_of(out@) == told.take(i as int),
        decreases n - i,
    {
        let ghost before = out@;
        let mut label: Vec<char> = chars::chars_of("file ");
        chars::append_str(&mut label, files[i].as_str());
        let w = Wanted {
            name: files[i].clone(),
            label: chars::string_of(label.as_slice()),
            place: Place::File(files[i].clone()),
        };
        assert(w@ == told[i as int]);
        out.push(w);
        assert(wanted_of(out@) == wanted_of(before).push(w@));
        assert(told.take(i + 1) == told.take(i as int).push(w@));
        i += 1;
    }
    assert(told.take(n as int) == told);

    let tokens: Vec<String> = lists::list_tokens(values_of(args, "--list").as_slice());
    let ghost head = wanted_of(out@);
    let ghost told = text::of_strings(tokens@).map_values(|t: Seq<char>| wanted_list(t));
    let n: usize = tokens.len();
    let mut i: usize = 0;
    assert(head + told.take(0) == head);
    while i < n
        invariant
            i <= n == tokens@.len() == told.len(),
            told == text::of_strings(tokens@).map_values(|t: Seq<char>| wanted_list(t)),
            wanted_of(out@) == head + told.take(i as int),
        decreases n - i,
    {
        let ghost before = out@;
        let name: String = tokens[i].clone();
        let w: Wanted = match lists::resolve_list(name.as_str()) {
            Ok(url) => Wanted { name, label: url.clone(), place: Place::Url(url) },
            Err(message) => Wanted {
                label: name.clone(),
                name,
                place: Place::Unknown(message),
            },
        };
        assert(w@ == told[i as int]);
        out.push(w);
        assert(wanted_of(out@) == wanted_of(before).push(w@));
        assert(told.take(i + 1) == told.take(i as int).push(w@));
        assert(head + told.take(i + 1) == (head + told.take(i as int)).push(w@));
        i += 1;
    }
    assert(told.take(n as int) == told);

    let urls: Vec<String> = values_of(args, "--url");
    let ghost head = wanted_of(out@);
    let ghost told = text::of_strings(urls@).map_values(|u: Seq<char>| wanted_url(u));
    let n: usize = urls.len();
    let mut i: usize = 0;
    assert(head + told.take(0) == head);
    while i < n
        invariant
            i <= n == urls@.len() == told.len(),
            told == text::of_strings(urls@).map_values(|u: Seq<char>| wanted_url(u)),
            wanted_of(out@) == head + told.take(i as int),
        decreases n - i,
    {
        let ghost before = out@;
        let w = Wanted {
            name: urls[i].clone(),
            label: urls[i].clone(),
            place: Place::Url(urls[i].clone()),
        };
        assert(w@ == told[i as int]);
        out.push(w);
        assert(wanted_of(out@) == wanted_of(before).push(w@));
        assert(told.take(i + 1) == told.take(i as int).push(w@));
        assert(head + told.take(i + 1) == (head + told.take(i as int)).push(w@));
        i += 1;
    }
    assert(told.take(n as int) == told);
    out
}

/// The domains that are asked for.
fn chosen_domains(value: Option<String>) -> (r: DomainChoice)
    ensures
        r@ == domain_choice(text::of_opt_string(value)),
{
    match value {
        None => DomainChoice::All,
        Some(v) => {
            let ghost given = v@;
            let values: Vec<String> = vec![v];
            let domains: Vec<String> = lists::list_tokens(values.as_slice());
            assert(text::of_strings(values@) == seq![given]);
            assert(text::of_strings(domains@).len() == domains@.len());
            if domains.len() == 0 {
                DomainChoice::Missing
            } else {
                DomainChoice::Listed(domains)
            }
        },
    }
}

/// Reads the arguments.
pub fn read_command(args: &Vec<String>) -> (r: Command)
    ensures
        r@ == command_of(text::of_strings(args@)),
{
    if has_flag(args, "--help") || has_flag(args, "-h") {
        return Command::Help;
    }
    let probe: bool = has_flag(args, "--probe");
    if let Some(rule) = value_of(args, "--rule") {
        return Command::Explain { rule, probe };
    }
    let option: Option<String> = match value_of(args, "--option") {
        Some(o) => {
            let o: Vec<char> = chars::chars_of(o.as_str());
            let o: Vec<char> = chars::lower(chars::trim(o.as_slice()));
            Some(chars::string_of(o.as_slice()))
        },
        None => None,
    };
    let output: Output = if has_flag(args, "--json") {
        Output::Json
    } else if has_flag(args, "--markdown") {
        Output::Markdown
    } else {
        Output::Text
    };
    Command::Scan(
        ScanCommand {
            wanted: wanted_lists(args),
            option,
            domains: chosen_domains(value_of(args, "--domains")),
            probe,
            show_supported: has_flag(args, "--show-supported"),
            output,
        },
    )
}

/// Of the values behind the occurrences of a flag, the one that counts alone is the first.
pub proof fn the_first_value_counts(args: Seq<Seq<char>>, flag: Seq<char>)
    ensures
        value_behind(args, flag) == (if values_behind(args, flag).len() > 0 {
            Some(values_behind(args, flag)[0])
        } else {
            None
        }),
    decreases args.len(),
{
    if args.len() >= 2 && args.first() != flag {
        the_first_value_counts(args.skip(1), flag);
    }
}

/// With `--help`, nothing else counts; and with `--rule`, no list is scanned.
pub proof fn help_and_rule_come_first(args: Seq<Seq<char>>)
    ensures
        args.contains("--help"@) || args.contains("-h"@) <==> command_of(args) is Help,
        values_behind(args, "--rule"@).len() > 0 ==> command_of(args) !is Scan,
{
    the_first_value_counts(args, "--rule"@);
}

/// A value stands directly behind its flag: one more argument is a value of the flag exactly if
/// the last before it was the flag, and then it is the last value.
pub proof fn values_stand_behind_their_flag(
    args: Seq<Seq<char>>,
    flag: Seq<char>,
    next: Seq<char>,
)
    ensures
        values_behind(Seq::empty(), flag) == Seq::<Seq<char>>::empty(),
        values_behind(args.push(next), flag) == (if args.len() > 0 && args.last() == flag {
            values_behind(args, flag).push(next)
        } else {
            values_behind(args, flag)
        }),
    decreases args.len(),
{
    let all = args.push(next);
    if args.len() > 0 {
        let rest = args.skip(1);
        values_stand_behind_their_flag(rest, flag, next);
        assert(all.skip(1) =~= rest.push(next));
        assert(all.first() == args[0]);
        if args.len() == 1 {
            assert(values_behind(rest, flag) =~= Seq::<Seq<char>>::empty());
            assert(all[1] == next);
            assert(values_behind(all.skip(1), flag) =~= Seq::<Seq<char>>::empty());
            assert(values_behind(args, flag) =~= Seq::<Seq<char>>::empty());
            assert(values_behind(all, flag) =~= (if args.last() == flag {
                values_behind(args, flag).push(next)
            } else {
                values_behind(args, flag)
            }));
        } else {
            assert(rest.last() == args.last());
            assert(all[1] == args[1]);
            assert(values_behind(all, flag) =~= (if args.last() == flag {
                values_behind(args, flag).push(next)
            } else {
                values_behind(args, flag)
            }));
        }
    }
}

/// What the arguments ask for. With `--rule`, that rule is explained. Otherwise lists are scanned:
/// the files first, then what `--list` names, then the URLs, each in the order in which they were
/// given; `--option` counts without white space around it and in small letters; `--domains` holds
/// the domains between its commas, which are missing if there is none; and JSON is put before
/// markdown, and that before text.
pub proof fn arguments_ask_for_this(args: Seq<Seq<char>>)
    requires
        !args.contains("--help"@),
        !args.contains("-h"@),
    ensures
        ({
            let rules = values_behind(args, "--rule"@);
            rules.len() > 0 ==> command_of(args) == (CommandView::Explain {
                rule: rules[0],
                probe: args.contains("--probe"@),
            })
        }),
        values_behind(args, "--rule"@).len() == 0 ==> (command_of(args) matches CommandView::Scan(
            scan,
        ) && {
            let opts = values_behind(args, "--option"@);
            let doms = values_behind(args, "--domains"@);
            let files = values_behind(args, "--file"@);
            let toks = lists::tokens(values_behind(args, "--list"@));
            let urls = values_behind(args, "--url"@);
            &&& scan.probe == args.contains("--probe"@)
            &&& scan.show_supported == args.contains("--show-supported"@)
            &&& scan.output == Output::Json <==> args.contains("--json"@)
            &&& scan.output == Output::Markdown <==> args.contains("--markdown"@) && !args.contains(
                "--json"@,
            )
            &&& opts.len() > 0 ==> scan.option == Some(text::lower(text::trim(opts[0])))
            &&& opts.len() == 0 ==> scan.option is None
            &&& doms.len() == 0 <==> scan.domains is All
            &&& doms.len() > 0 && lists::tokens(seq![doms[0]]).len() == 0 <==> scan.domains
                is Missing
            &&& scan.domains matches DomainChoiceView::Listed(d) ==> d == lists::tokens(
                seq![doms[0]],
            )
            &&& scan.wanted.len() == files.len() + toks.len() + urls.len()
            &&& forall|k: int|
                0 <= k < files.len() ==> scan.wanted[k] == (WantedView {
                    name: #[trigger] files[k],
                    label: "file "@ + files[k],
                    place: PlaceView::File(files[k]),
                })
            &&& forall|k: int|
                0 <= k < toks.len() ==> scan.wanted[files.len() + k] == (
                match lists::resolved(#[trigger] toks[k]) {
                    Ok(url) => WantedView { name: toks[k], label: url, place: PlaceView::Url(url) },
                    Err(e) => WantedView {
                        name: toks[k],
                        label: toks[k],
                        place: PlaceView::Unknown(e),
                    },
                })
            &&& forall|k: int|
                0 <= k < urls.len() ==> scan.wanted[files.len() + toks.len() + k] == (WantedView {
                    name: #[trigger] urls[k],
                    label: urls[k],
                    place: PlaceView::Url(urls[k]),
                })
        }),
{
    the_first_value_counts(args, "--rule"@);
    the_first_value_counts(args, "--option"@);
    the_first_value_counts(args, "--domains"@);
    let files = values_behind(args, "--file"@);
    let toks = lists::tokens(values_behind(args, "--list"@));
    let urls = values_behind(args, "--url"@);
    let all = all_wanted(args);
    assert forall|k: int| 0 <= k < files.len() implies all[k] == wanted_file(#[trigger] files[k]) by {}
    assert forall|k: int| 0 <= k < toks.len() implies all[files.len() + k] == wanted_list(
        #[trigger] toks[k],
    ) by {}
    assert forall|k: int| 0 <= k < urls.len() implies all[files.len() + toks.len() + k]
        == wanted_url(#[trigger] urls[k]) by {}
}

} // verus!
