//! The command line: what its words ask for, and what is printed.

use vstd::prelude::*;

use crate::binary;
use crate::gen;
use crate::style::compose;
use crate::style::compose::{GenInfo, GenParams, InfoView, ParamsView, Report};
use crate::text;
use crate::vip;
use crate::vip::writer;

verus! {

// ---------------------------------------------------------------- words and flags

/// The words of a command line behind the command. A flag given without a
/// value, or at the very end, has none.
#[derive(Debug)]
pub struct Args {
    pub positional: Vec<String>,
    pub flags: Vec<(String, Option<String>)>,
}

#[verifier::ext_equal]
pub struct ArgsView {
    pub positional: Seq<Seq<char>>,
    pub flags: Seq<(Seq<char>, Option<Seq<char>>)>,
}

pub open spec fn opt_view(s: Option<String>) -> Option<Seq<char>> {
    match s {
        Some(t) => Some(t@),
        None => None,
    }
}

pub open spec fn flag_views(v: Seq<(String, Option<String>)>) -> Seq<
    (Seq<char>, Option<Seq<char>>),
> {
    v.map_values(|x: (String, Option<String>)| (x.0@, opt_view(x.1)))
}

impl View for Args {
    type V = ArgsView;

    open spec fn view(&self) -> ArgsView {
        ArgsView { positional: text::texts(self.positional@), flags: flag_views(self.flags@) }
    }
}

/// Whether a word is a flag.
pub open spec fn is_flag(w: Seq<char>) -> bool {
    w.len() >= 2 && w[0] == '-' && w[1] == '-'
}

/// Two flags never take a value.
pub open spec fn takes_value(name: Seq<char>) -> bool {
    name != "help"@ && name != "stems-only"@
}

pub open spec fn no_args() -> ArgsView {
    ArgsView { positional: Seq::empty(), flags: Seq::empty() }
}

pub open spec fn with_flag(
    name: Seq<char>,
    value: Option<Seq<char>>,
    rest: ArgsView,
) -> ArgsView {
    ArgsView { flags: seq![(name, value)] + rest.flags, ..rest }
}

pub open spec fn both(a: ArgsView, b: ArgsView) -> ArgsView {
    ArgsView { positional: a.positional + b.positional, flags: a.flags + b.flags }
}

/// The words from `i` on. A flag takes the next word as its value unless that
/// is a flag too; `-o` takes it whatever it is.
pub open spec fn parsed(w: Seq<Seq<char>>, i: nat) -> ArgsView
    decreases w.len() - i,
{
    if i >= w.len() {
        no_args()
    } else if is_flag(w[i as int]) {
        let name = w[i as int].skip(2);
        if takes_value(name) && i + 1 < w.len() && !is_flag(w[(i + 1) as int]) {
            with_flag(name, Some(w[(i + 1) as int]), parsed(w, i + 2))
        } else {
            with_flag(name, None, parsed(w, i + 1))
        }
    } else if w[i as int] == "-o"@ {
        if i + 1 < w.len() {
            with_flag("out"@, Some(w[(i + 1) as int]), parsed(w, i + 2))
        } else {
            with_flag("out"@, None, parsed(w, i + 1))
        }
    } else {
        let rest = parsed(w, i + 1);
        ArgsView { positional: seq![w[i as int]] + rest.positional, ..rest }
    }
}

/// The value of a flag among the first `k`: the last one given counts.
pub open spec fn flag_value(
    f: Seq<(Seq<char>, Option<Seq<char>>)>,
    name: Seq<char>,
    k: nat,
) -> Option<Seq<char>>
    decreases k,
{
    if k == 0 {
        None
    } else if f[k - 1].0 == name {
        f[k - 1].1
    } else {
        flag_value(f, name, (k - 1) as nat)
    }
}

pub open spec fn value_of(a: ArgsView, name: Seq<char>) -> Option<Seq<char>> {
    flag_value(a.flags, name, a.flags.len())
}

fn word_is_flag(w: &[char]) -> (r: bool)
    ensures
        r == is_flag(w@),
{
    w.len() >= 2 && w[0] == '-' && w[1] == '-'
}

fn copy_string(s: &str) -> (r: String)
    ensures
        r@ == s@,
{
    let v: Vec<char> = text::chars_of(s);
    text::string_of(v.as_slice())
}

/// A flag given later counts, whatever came before it.
pub proof fn law_last_flag_wins(
    f: Seq<(Seq<char>, Option<Seq<char>>)>,
    name: Seq<char>,
    value: Seq<char>,
)
    ensures
        flag_value(f.push((name, Some(value))), name, f.len() + 1) == Some(value),
{
}

impl Args {
    fn add_flag(&mut self, name: String, value: Option<String>)
        ensures
            final(self)@ == both(
                old(self)@,
                with_flag(name@, opt_view(value), no_args()),
            ),
    {
        let ghost before = self@;
        self.flags.push((name, value));
        assert(flag_views(self.flags@) =~= before.flags + seq![(name@, opt_view(value))]);
        assert(self@ =~= both(before, with_flag(name@, opt_view(value), no_args())));
    }

    fn add_word(&mut self, w: String)
        ensures
            final(self)@ == both(
                old(self)@,
                (ArgsView { positional: seq![w@], flags: Seq::empty() }),
            ),
    {
        let ghost before = self@;
        self.positional.push(w);
        assert(text::texts(self.positional@) =~= before.positional + seq![w@]);
        assert(self@ =~= both(
            before,
            ArgsView { positional: seq![w@], flags: Seq::empty() },
        ));
    }

    /// Reads the words of a command line.
    pub fn parse(words: &[String]) -> (r: Args)
        ensures
            r@ == parsed(text::texts(words@), 0),
    {
        let ghost w = text::texts(words@);
        let mut r: Args = Args { positional: Vec::new(), flags: Vec::new() };
        assert(r@ =~= no_args());
        assert(both(r@, parsed(w, 0)) =~= parsed(w, 0));
        let n: usize = words.len();
        let mut i: usize = 0;
        while i < n
            invariant
                n == words@.len(),
                w == text::texts(words@),
                w.len() == n,
                i <= n,
                both(r@, parsed(w, i as nat)) == parsed(w, 0),
            decreases n - i,
        {
            let ghost before = r@;
            let a: Vec<char> = text::chars_of(words[i].as_str());
            assert(w[i as int] == a@);
            if word_is_flag(a.as_slice()) {
                let name: &[char] = text::tail(a.as_slice(), 2);
                let takes: bool = !text::is_lit(name, "help") && !text::is_lit(name, "stems-only");
                if takes && n - i > 1 {
                    let next: Vec<char> = text::chars_of(words[i + 1].as_str());
                    assert(w[i + 1] == next@);
                    if !word_is_flag(next.as_slice()) {
                        let value: String = text::string_of(next.as_slice());
                        r.add_flag(text::string_of(name), Some(value));
                        assert(both(r@, parsed(w, (i + 2) as nat)) =~= both(
                            before,
                            parsed(w, i as nat),
                        ));
                        i = i + 2;
                        continue;
                    }
                }
                r.add_flag(text::string_of(name), None);
                assert(both(r@, parsed(w, (i + 1) as nat)) =~= both(before, parsed(w, i as nat)));
                i = i + 1;
            } else if text::is_lit(a.as_slice(), "-o") {
                if n - i > 1 {
                    assert(w[i + 1] == words@[i + 1]@);
                    r.add_flag(copy_string("out"), Some(copy_string(words[i + 1].as_str())));
                    assert(both(r@, parsed(w, (i + 2) as nat)) =~= both(
                        before,
                        parsed(w, i as nat),
                    ));
                    i = i + 2;
                } else {
                    r.add_flag(copy_string("out"), None);
                    assert(both(r@, parsed(w, (i + 1) as nat)) =~= both(
                        before,
                        parsed(w, i as nat),
                    ));
                    i = i + 1;
                }
            } else {
                r.add_word(copy_string(words[i].as_str()));
                assert(both(r@, parsed(w, (i + 1) as nat)) =~= both(before, parsed(w, i as nat)));
                i = i + 1;
            }
        }
        assert(both(r@, no_args()) =~= r@);
        r
    }

    /// The value of a flag.
    pub fn get(&self, name: &str) -> (r: Option<String>)
        ensures
            opt_view(r) == value_of(self@, name@),
    {
        let ghost f = self@.flags;
        assert(f.len() == self.flags@.len());
        let mut k: usize = self.flags.len();
        while k > 0
            invariant
                k <= self.flags@.len(),
                f == flag_views(self.flags@),
                flag_value(f, name@, f.len()) == flag_value(f, name@, k as nat),
            decreases k,
        {
            assert(f[k - 1] == (self.flags@[k - 1].0@, opt_view(self.flags@[k - 1].1)));
            if text::same_str(self.flags[k - 1].0.as_str(), name) {
                return match &self.flags[k - 1].1 {
                    Some(v) => Some(copy_string(v.as_str())),
                    None => None,
                };
            }
            k = k - 1;
        }
        None
    }
}

// ---------------------------------------------------------------- faults

/// What a command cannot do without.
#[derive(Clone, Copy, Debug, PartialEq, Eq, Structural)]
pub enum Need {
    CheckPath,
    FmtPath,
    CompilePath,
    InfoPath,
    RenderPath,
    RenderOutput,
    VerifyPath,
    VerifyAgainst,
    RipPath,
    Style,
    MapFile,
    Midi,
}

#[derive(Debug)]
pub enum CliError {
    Need(Need),
    NotNumber { name: String, value: String },
    BadKey { value: String },
    /// The seeds run out.
    TooMany,
}

pub ghost enum CliFault {
    Need(Need),
    NotNumber(Seq<char>, Seq<char>),
    BadKey(Seq<char>),
    TooMany,
}

impl View for CliError {
    type V = CliFault;

    open spec fn view(&self) -> CliFault {
        match *self {
            CliError::Need(n) => CliFault::Need(n),
            CliError::NotNumber { name, value } => CliFault::NotNumber(name@, value@),
            CliError::BadKey { value } => CliFault::BadKey(value@),
            CliError::TooMany => CliFault::TooMany,
        }
    }
}

pub open spec fn need_text(n: Need) -> Seq<char> {
    match n {
        Need::CheckPath => "check: need a .vip path"@,
        Need::FmtPath => "fmt: need a .vip path"@,
        Need::CompilePath => "compile: need at least one .vip path"@,
        Need::InfoPath => "info: need an .nsf path"@,
        Need::RenderPath => "render: need an .nsf path"@,
        Need::RenderOutput => "render: nothing to do — pass -o, --stems, --triggers, or --log"@,
        Need::VerifyPath => "verify: need an .nsf or a viper .log"@,
        Need::VerifyAgainst => "verify: need --against other.log"@,
        Need::RipPath => "rip: need an .nsf or a register log"@,
        Need::Style => "gen: need --style DIR"@,
        Need::MapFile => "import: need --map map.vmap"@,
        Need::Midi => "import: need a .mid path, or @source midi=... in the map"@,
    }
}

pub open spec fn fault_text(f: CliFault) -> Seq<char> {
    match f {
        CliFault::Need(n) => need_text(n),
        CliFault::NotNumber(name, value) => "--"@ + name + " expects a number, got "@
            + text::debug_text(value),
        CliFault::BadKey(value) => "bad --key "@ + text::debug_text(value),
        CliFault::TooMany => "gen: the seeds run out"@,
    }
}

impl CliError {
    /// What is wrong with the command line.
    pub fn message(&self) -> (r: String)
        ensures
            r@ == fault_text(self@),
    {
        let mut t: Vec<char> = Vec::new();
        match self {
            CliError::Need(n) => {
                text::put_str(
                    &mut t,
                    match *n {
                        Need::CheckPath => "check: need a .vip path",
                        Need::FmtPath => "fmt: need a .vip path",
                        Need::CompilePath => "compile: need at least one .vip path",
                        Need::InfoPath => "info: need an .nsf path",
                        Need::RenderPath => "render: need an .nsf path",
                        Need::RenderOutput =>
                            "render: nothing to do — pass -o, --stems, --triggers, or --log",
                        Need::VerifyPath => "verify: need an .nsf or a viper .log",
                        Need::VerifyAgainst => "verify: need --against other.log",
                        Need::RipPath => "rip: need an .nsf or a register log",
                        Need::Style => "gen: need --style DIR",
                        Need::MapFile => "import: need --map map.vmap",
                        Need::Midi => "import: need a .mid path, or @source midi=... in the map",
                    },
                );
            },
            CliError::NotNumber { name, value } => {
                text::put_str(&mut t, "--");
                text::put_str(&mut t, name.as_str());
                text::put_str(&mut t, " expects a number, got ");
                let d: String = text::debug_of(value.as_str());
                text::put_str(&mut t, d.as_str());
            },
            CliError::BadKey { value } => {
                text::put_str(&mut t, "bad --key ");
                let d: String = text::debug_of(value.as_str());
                text::put_str(&mut t, d.as_str());
            },
            CliError::TooMany => text::put_str(&mut t, "gen: the seeds run out"),
        }
        assert(t@ =~= fault_text(self@));
        text::string_of(t.as_slice())
    }
}

/// A flag's number up to a maximum; `None` where the flag is not given.
pub open spec fn number(a: ArgsView, name: Seq<char>, max: nat) -> Result<Option<nat>, CliFault> {
    match value_of(a, name) {
        None => Ok(None),
        Some(v) => match text::parse_uint(v, 10, max) {
            Some(n) => Ok(Some(n)),
            None => Err(CliFault::NotNumber(name, v)),
        },
    }
}

impl Args {
    pub fn num(&self, name: &str, max: u64) -> (r: Result<Option<u64>, CliError>)
        ensures
            match r {
                Ok(Some(n)) => number(self@, name@, max as nat) == Ok::<Option<nat>, CliFault>(
                    Some(n as nat),
                ) && n <= max,
                Ok(None) => number(self@, name@, max as nat) == Ok::<Option<nat>, CliFault>(None),
                Err(e) => number(self@, name@, max as nat) == Err::<Option<nat>, CliFault>(e@),
            },
    {
        match self.get(name) {
            None => Ok(None),
            Some(v) => {
                let c: Vec<char> = text::chars_of(v.as_str());
                match text::read_uint(c.as_slice(), 10, max) {
                    Some(n) => Ok(Some(n)),
                    None => Err(
                        CliError::NotNumber { name: copy_string(name), value: v },
                    ),
                }
            },
        }
    }
}

// ---------------------------------------------------------------- commands

#[derive(Clone, Copy, Debug, PartialEq, Eq, Structural)]
pub enum Command {
    Check,
    Dpcm,
    Import,
    Gen,
    Fmt,
    Compile,
    Render,
    Info,
    Verify,
    Rip,
    /// Anything else: how to use the program is printed.
    Usage,
}

pub open spec fn command_named(w: Seq<char>) -> Command {
    if w == "check"@ {
        Command::Check
    } else if w == "dpcm"@ {
        Command::Dpcm
    } else if w == "import"@ {
        Command::Import
    } else if w == "gen"@ {
        Command::Gen
    } else if w == "fmt"@ {
        Command::Fmt
    } else if w == "compile"@ {
        Command::Compile
    } else if w == "render"@ {
        Command::Render
    } else if w == "info"@ {
        Command::Info
    } else if w == "verify"@ {
        Command::Verify
    } else if w == "rip"@ {
        Command::Rip
    } else {
        Command::Usage
    }
}

impl Command {
    pub fn parse(w: &str) -> (r: Command)
        ensures
            r == command_named(w@),
    {
        let c: Vec<char> = text::chars_of(w);
        let s: &[char] = c.as_slice();
        if text::is_lit(s, "check") {
            Command::Check
        } else if text::is_lit(s, "dpcm") {
            Command::Dpcm
        } else if text::is_lit(s, "import") {
            Command::Import
        } else if text::is_lit(s, "gen") {
            Command::Gen
        } else if text::is_lit(s, "fmt") {
            Command::Fmt
        } else if text::is_lit(s, "compile") {
            Command::Compile
        } else if text::is_lit(s, "render") {
            Command::Render
        } else if text::is_lit(s, "info") {
            Command::Info
        } else if text::is_lit(s, "verify") {
            Command::Verify
        } else if text::is_lit(s, "rip") {
            Command::Rip
        } else {
            Command::Usage
        }
    }
}

// ---------------------------------------------------------------- paths

/// Whether a path's file has an extension.
pub open spec fn has_extension(p: Seq<char>) -> bool {
    let name = text::last_component(p.take(text::path_end(p) as int));
    name != ".."@ && text::stem_len(name) < name.len()
}

/// A name in a directory; a name that begins at the root stands alone.
pub open spec fn joined_path(dir: Seq<char>, name: Seq<char>) -> Seq<char> {
    if dir.len() == 0 || (name.len() > 0 && name[0] == '/') {
        name
    } else if dir.last() == '/' {
        dir + name
    } else {
        dir + seq!['/'] + name
    }
}

fn find_extension(p: &[char]) -> (r: bool)
    ensures
        r == has_extension(p@),
{
    let name: &[char] = text::file_part(p);
    if text::is_lit(name, "..") {
        return false;
    }
    let mut k: usize = name.len();
    while k > 1 && name[k - 1] != '.'
        invariant
            k <= name@.len(),
            text::stem_len(name@) == text::stem_from(name@, k as nat),
        decreases k,
    {
        k = k - 1;
    }
    k > 1
}

fn join_path(dir: &[char], name: &[char]) -> (r: Vec<char>)
    ensures
        r@ == joined_path(dir@, name@),
{
    if dir.len() == 0 || (name.len() > 0 && name[0] == '/') {
        return text::copy_of(name);
    }
    let mut r: Vec<char> = text::copy_of(dir);
    if dir[dir.len() - 1] != '/' {
        r.push('/');
    }
    text::put(&mut r, name);
    r
}

/// Where a command writes: to `-o`, or beside its input under another
/// extension.
pub open spec fn output_path(a: ArgsView, input: Seq<char>, ext: Seq<char>) -> Seq<char> {
    match value_of(a, "out"@) {
        Some(o) => o,
        None => text::with_extension(input, ext),
    }
}

impl Args {
    pub fn output(&self, input: &str, ext: &str) -> (r: String)
        ensures
            r@ == output_path(self@, input@, ext@),
    {
        match self.get("out") {
            Some(o) => o,
            None => {
                let p: Vec<char> = text::chars_of(input);
                text::string_of(text::extended(p.as_slice(), ext).as_slice())
            },
        }
    }

    /// The first word, or what is missing without it.
    pub fn first(&self, need: Need) -> (r: Result<String, CliError>)
        ensures
            match r {
                Ok(p) => self@.positional.len() > 0 && p@ == self@.positional[0],
                Err(e) => self@.positional.len() == 0 && e@ == CliFault::Need(need),
            },
    {
        assert(self@.positional.len() == self.positional@.len());
        if self.positional.len() == 0 {
            return Err(CliError::Need(need));
        }
        assert(self@.positional[0] == self.positional@[0]@);
        Ok(copy_string(self.positional[0].as_str()))
    }
}

// ---------------------------------------------------------------- gen

/// What `gen` is asked for.
#[derive(Debug)]
pub struct GenPlan {
    pub style: String,
    pub seed: u64,
    pub count: u64,
    pub out: Option<String>,
    pub prefix: String,
    pub key: Option<u8>,
    pub bpm: Option<u16>,
    pub scale: Option<String>,
    pub motif: Option<bool>,
    pub form: Option<usize>,
    pub driver: Option<(String, String)>,
    pub artist: String,
}

#[verifier::ext_equal]
pub struct PlanView {
    pub style: Seq<char>,
    pub seed: u64,
    pub count: u64,
    pub out: Option<Seq<char>>,
    pub prefix: Seq<char>,
    pub key: Option<u8>,
    pub bpm: Option<u16>,
    pub scale: Option<Seq<char>>,
    pub motif: Option<bool>,
    pub form: Option<usize>,
    pub driver: Option<(Seq<char>, Seq<char>)>,
    pub artist: Seq<char>,
}

pub open spec fn pair_view(d: Option<(String, String)>) -> Option<(Seq<char>, Seq<char>)> {
    match d {
        Some((a, b)) => Some((a@, b@)),
        None => None,
    }
}

impl View for GenPlan {
    type V = PlanView;

    open spec fn view(&self) -> PlanView {
        PlanView {
            style: self.style@,
            seed: self.seed,
            count: self.count,
            out: opt_view(self.out),
            prefix: self.prefix@,
            key: self.key,
            bpm: self.bpm,
            scale: opt_view(self.scale),
            motif: self.motif,
            form: self.form,
            driver: pair_view(self.driver),
            artist: self.artist@,
        }
    }
}

pub open spec fn or_else(v: Option<Seq<char>>, d: Seq<char>) -> Seq<char> {
    match v {
        Some(t) => t,
        None => d,
    }
}

/// `on` and `off`; anything else leaves it open.
pub open spec fn switch_of(v: Option<Seq<char>>) -> Option<bool> {
    match v {
        Some(t) => if t == "on"@ {
            Some(true)
        } else if t == "off"@ {
            Some(false)
        } else {
            None
        },
        None => None,
    }
}

/// The key asked for.
pub open spec fn key_of(a: ArgsView) -> Result<Option<u8>, CliFault> {
    match value_of(a, "key"@) {
        None => Ok(None),
        Some(k) => match gen::key_named(k) {
            Some(n) => Ok(Some(n)),
            None => Err(CliFault::BadKey(k)),
        },
    }
}

/// The driver and its symbols, which lie beside it unless they are named.
pub open spec fn driver_of(a: ArgsView) -> Option<(Seq<char>, Seq<char>)> {
    match value_of(a, "driver"@) {
        None => None,
        Some(b) => Some((b, or_else(value_of(a, "sym"@), text::with_extension(b, "sym"@)))),
    }
}

pub open spec fn count_of(n: Option<nat>) -> u64 {
    match n {
        None => 1,
        Some(n) => if n == 0 {
            1
        } else {
            n as u64
        },
    }
}

pub open spec fn plan_of(a: ArgsView) -> Result<PlanView, CliFault> {
    match value_of(a, "style"@) {
        None => Err(CliFault::Need(Need::Style)),
        Some(style) => match number(a, "seed"@, u64::MAX as nat) {
            Err(f) => Err(f),
            Ok(seed) => match number(a, "count"@, u64::MAX as nat) {
                Err(f) => Err(f),
                Ok(count) => match key_of(a) {
                    Err(f) => Err(f),
                    Ok(key) => match number(a, "bpm"@, 65535) {
                        Err(f) => Err(f),
                        Ok(bpm) => match number(a, "form"@, usize::MAX as nat) {
                            Err(f) => Err(f),
                            Ok(form) => {
                                let s = match seed {
                                    Some(n) => n as u64,
                                    None => 1,
                                };
                                if s + count_of(count) - 1 > u64::MAX {
                                    Err(CliFault::TooMany)
                                } else {
                                    Ok(
                                        PlanView {
                                            style,
                                            seed: s,
                                            count: count_of(count),
                                            out: value_of(a, "out"@),
                                            prefix: or_else(value_of(a, "prefix"@), "gen"@),
                                            key,
                                            bpm: match bpm {
                                                Some(n) => Some(n as u16),
                                                None => None,
                                            },
                                            scale: value_of(a, "scale"@),
                                            motif: switch_of(value_of(a, "motif"@)),
                                            form: match form {
                                                Some(n) => Some(n as usize),
                                                None => None,
                                            },
                                            driver: driver_of(a),
                                            artist: or_else(value_of(a, "artist"@), ""@),
                                        },
                                    )
                                }
                            },
                        },
                    },
                },
            },
        },
    }
}

impl Args {
    fn text_or(&self, name: &str, d: &str) -> (r: String)
        ensures
            r@ == or_else(value_of(self@, name@), d@),
    {
        match self.get(name) {
            Some(v) => v,
            None => copy_string(d),
        }
    }

    fn switch(&self, name: &str) -> (r: Option<bool>)
        ensures
            r == switch_of(value_of(self@, name@)),
    {
        match self.get(name) {
            Some(v) => if text::same_str(v.as_str(), "on") {
                Some(true)
            } else if text::same_str(v.as_str(), "off") {
                Some(false)
            } else {
                None
            },
            None => None,
        }
    }

    fn key(&self) -> (r: Result<Option<u8>, CliError>)
        ensures
            match r {
                Ok(k) => key_of(self@) == Ok::<Option<u8>, CliFault>(k),
                Err(e) => key_of(self@) == Err::<Option<u8>, CliFault>(e@),
            },
    {
        match self.get("key") {
            None => Ok(None),
            Some(k) => match gen::parse_key(k.as_str()) {
                Some(n) => Ok(Some(n)),
                None => Err(CliError::BadKey { value: k }),
            },
        }
    }

    fn driver(&self) -> (r: Option<(String, String)>)
        ensures
            pair_view(r) == driver_of(self@),
    {
        match self.get("driver") {
            None => None,
            Some(b) => {
                let sym: String = match self.get("sym") {
                    Some(s) => s,
                    None => {
                        let p: Vec<char> = text::chars_of(b.as_str());
                        text::string_of(text::extended(p.as_slice(), "sym").as_slice())
                    },
                };
                Some((b, sym))
            },
        }
    }

    /// What `gen` is asked for.
    pub fn gen_plan(&self) -> (r: Result<GenPlan, CliError>)
        ensures
            match r {
                Ok(p) => plan_of(self@) == Ok::<PlanView, CliFault>(p@) && p.seed + p.count - 1
                    <= u64::MAX && p.count >= 1,
                Err(e) => plan_of(self@) == Err::<PlanView, CliFault>(e@),
            },
    {
        let style: String = match self.get("style") {
            Some(s) => s,
            None => {
                return Err(CliError::Need(Need::Style));
            },
        };
        let seed: u64 = match self.num("seed", u64::MAX) {
            Ok(Some(n)) => n,
            Ok(None) => 1,
            Err(e) => {
                return Err(e);
            },
        };
        let count: u64 = match self.num("count", u64::MAX) {
            Ok(Some(n)) => if n == 0 {
                1
            } else {
                n
            },
            Ok(None) => 1,
            Err(e) => {
                return Err(e);
            },
        };
        let key: Option<u8> = match self.key() {
            Ok(k) => k,
            Err(e) => {
                return Err(e);
            },
        };
        let bpm: Option<u16> = match self.num("bpm", 65535) {
            Ok(Some(n)) => Some(n as u16),
            Ok(None) => None,
            Err(e) => {
                return Err(e);
            },
        };
        let form: Option<usize> = match self.num("form", usize::MAX as u64) {
            Ok(Some(n)) => Some(n as usize),
            Ok(None) => None,
            Err(e) => {
                return Err(e);
            },
        };
        if count - 1 > u64::MAX - seed {
            return Err(CliError::TooMany);
        }
        let p: GenPlan = GenPlan {
            style,
            seed,
            count,
            out: self.get("out"),
            prefix: self.text_or("prefix", "gen"),
            key,
            bpm,
            scale: self.get("scale"),
            motif: self.switch("motif"),
            form,
            driver: self.driver(),
            artist: self.text_or("artist", ""),
        };
        assert(plan_of(self@) is Ok);
        assert(p@ =~= plan_of(self@)->Ok_0);
        Ok(p)
    }
}

/// The parameters of one song of a plan.
pub open spec fn params_of(p: PlanView, seed: u64) -> ParamsView {
    ParamsView {
        seed,
        key: p.key,
        bpm: p.bpm,
        scale: p.scale,
        motif: p.motif,
        form: p.form,
        driver: p.driver,
        artist: p.artist,
    }
}

/// Each flag of a plan sets what it names and reaches every song of the plan.
/// Without it the prefix is `gen`, the artist is empty, the seed and the count
/// are one, and the rest is left to the style.
pub proof fn law_flags_set_what_they_name(a: ArgsView, seed: u64)
    requires
        plan_of(a) is Ok,
    ensures
        ({
            let p = plan_of(a)->Ok_0;
            let q = params_of(p, seed);
            let nothing = None::<Seq<char>>;
            &&& q.seed == seed
            &&& value_of(a, "style"@) == Some(p.style)
            &&& value_of(a, "out"@) == p.out
            &&& value_of(a, "scale"@) == q.scale
            &&& p.prefix == (if value_of(a, "prefix"@) == nothing {
                "gen"@
            } else {
                value_of(a, "prefix"@)->0
            })
            &&& value_of(a, "artist"@) is Some ==> value_of(a, "artist"@) == Some(q.artist)
            &&& value_of(a, "artist"@) is None ==> q.artist == ""@
            &&& q.motif == Some(true) <==> value_of(a, "motif"@) == Some("on"@)
            &&& q.motif == Some(false) <==> value_of(a, "motif"@) == Some("off"@)
            &&& q.driver is Some <==> value_of(a, "driver"@) is Some
            &&& q.driver is Some ==> value_of(a, "driver"@) == Some((q.driver->0).0)
            &&& q.driver is Some && value_of(a, "sym"@) is Some ==> value_of(a, "sym"@) == Some(
                (q.driver->0).1,
            )
            &&& q.key is Some <==> value_of(a, "key"@) is Some
            &&& q.key is Some ==> gen::key_named(value_of(a, "key"@)->0) == q.key
            &&& value_of(a, "seed"@) is None ==> p.seed == 1
            &&& value_of(a, "count"@) is None ==> p.count == 1
            &&& value_of(a, "bpm"@) is None <==> q.bpm is None
            &&& value_of(a, "form"@) is None <==> q.form is None
            &&& value_of(a, "seed"@) is Some ==> text::parse_uint(
                value_of(a, "seed"@)->0,
                10,
                u64::MAX as nat,
            ) == Some(p.seed as nat)
            &&& value_of(a, "bpm"@) is Some ==> text::parse_uint(
                value_of(a, "bpm"@)->0,
                10,
                65535,
            ) == Some(q.bpm->0 as nat)
        }),
{
    reveal_strlit("on");
    reveal_strlit("off");
    assert("on"@.len() == 2 && "off"@.len() == 3);
}

/// A seed with three digits at least.
pub open spec fn seed_text(n: nat) -> Seq<char> {
    if n < 10 {
        "00"@ + text::dec(n)
    } else if n < 100 {
        "0"@ + text::dec(n)
    } else {
        text::dec(n)
    }
}

pub open spec fn song_file(prefix: Seq<char>, seed: u64) -> Seq<char> {
    prefix + seq!['_'] + seed_text(seed as nat) + ".vip"@
}

/// Whether the output names a directory: it is one, it is to hold several
/// songs, or it looks like one.
pub open spec fn into_dir(p: PlanView, is_dir: bool) -> bool {
    p.out is Some && (is_dir || p.count > 1 || !has_extension(p.out->0))
}

/// Where one song of a plan is written.
pub open spec fn song_path(p: PlanView, seed: u64, is_dir: bool) -> Seq<char> {
    match p.out {
        None => song_file(p.prefix, seed),
        Some(o) => if into_dir(p, is_dir) {
            joined_path(o, song_file(p.prefix, seed))
        } else {
            o
        },
    }
}

fn put_seed(t: &mut Vec<char>, n: u64)
    ensures
        final(t)@ == old(t)@ + seed_text(n as nat),
{
    let ghost before = t@;
    if n < 10 {
        text::put_str(t, "00");
    } else if n < 100 {
        text::put_str(t, "0");
    }
    text::put_dec(t, n);
    assert(t@ =~= before + seed_text(n as nat));
}

fn copy_opt(s: &Option<String>) -> (r: Option<String>)
    ensures
        opt_view(r) == opt_view(*s),
{
    match s {
        Some(t) => Some(copy_string(t.as_str())),
        None => None,
    }
}

impl GenPlan {
    /// The parameters of the song with a seed.
    pub fn params(&self, seed: u64) -> (r: GenParams)
        ensures
            r@ == params_of(self@, seed),
    {
        let driver: Option<(String, String)> = match &self.driver {
            Some((a, b)) => Some((copy_string(a.as_str()), copy_string(b.as_str()))),
            None => None,
        };
        let r: GenParams = GenParams {
            seed,
            key: self.key,
            bpm: self.bpm,
            scale: copy_opt(&self.scale),
            motif: self.motif,
            form: self.form,
            driver,
            artist: copy_string(self.artist.as_str()),
        };
        assert(r@ =~= params_of(self@, seed));
        r
    }

    /// Whether the songs go into a directory.
    pub fn writes_into_dir(&self, is_dir: bool) -> (r: bool)
        ensures
            r == into_dir(self@, is_dir),
    {
        match &self.out {
            None => false,
            Some(o) => {
                let p: Vec<char> = text::chars_of(o.as_str());
                is_dir || self.count > 1 || !find_extension(p.as_slice())
            },
        }
    }

    /// Where the song with a seed is written; `is_dir` says whether the
    /// output is a directory that exists.
    pub fn path(&self, seed: u64, is_dir: bool) -> (r: String)
        ensures
            r@ == song_path(self@, seed, is_dir),
    {
        let mut name: Vec<char> = text::chars_of(self.prefix.as_str());
        name.push('_');
        put_seed(&mut name, seed);
        text::put_str(&mut name, ".vip");
        assert(name@ =~= song_file(self.prefix@, seed));
        match &self.out {
            None => text::string_of(name.as_slice()),
            Some(o) => if self.writes_into_dir(is_dir) {
                let dir: Vec<char> = text::chars_of(o.as_str());
                text::string_of(join_path(dir.as_slice(), name.as_slice()).as_slice())
            } else {
                copy_string(o.as_str())
            },
        }
    }
}

/// How much of the time the lead is struck, in single precision, with two
/// decimals.
pub open spec fn density_text(r: Report) -> Seq<char> {
    if r.bars == 0 {
        "0.00"@
    } else {
        let hits = binary::whole(r.lead_hits as nat, binary::SINGLE as nat);
        let steps = binary::whole((r.bars * 16) as nat, binary::SINGLE as nat);
        binary::shown(hits, steps, binary::SINGLE as nat)
    }
}

fn put_density(t: &mut Vec<char>, r: &Report)
    ensures
        final(t)@ == old(t)@ + density_text(*r),
{
    if r.bars == 0 {
        text::put_str(t, "0.00");
    } else {
        let hits: u128 = binary::find_whole(r.lead_hits as u128, binary::SINGLE);
        let steps: u128 = binary::find_whole(r.bars as u128 * 16, binary::SINGLE);
        binary::put_shown(t, hits, steps, binary::SINGLE);
    }
}

/// The comment over a generated song.
pub open spec fn gen_header_text(
    name: Seq<char>,
    version: Seq<char>,
    seed: u64,
    key: Seq<char>,
    info: InfoView,
    r: Report,
) -> Seq<char> {
    "# generated by viper gen — style "@ + name + " v"@ + version + " seed "@ + text::dec(
        seed as nat,
    ) + " key "@ + key + " progression "@ + info.progression + " form "@ + text::dec(
        info.form as nat,
    ) + " motif "@ + (if info.motif {
        "on"@
    } else {
        "off"@
    }) + "\n# "@ + text::dec(r.bars as nat) + " bars, "@ + text::dec(r.unique_phrases as nat)
        + " unique phrases, lead density "@ + density_text(r) + ", lead range "@ + text::dec(
        r.lead_range as nat,
    ) + " semitones\n"@
}

pub fn gen_header(
    name: &str,
    version: &str,
    seed: u64,
    key: &str,
    info: &GenInfo,
    r: &Report,
) -> (t: String)
    ensures
        t@ == gen_header_text(name@, version@, seed, key@, info@, *r),
{
    let mut t: Vec<char> = Vec::new();
    text::put_str(&mut t, "# generated by viper gen — style ");
    assert(t@ =~= "# generated by viper gen — style "@);
    text::put_str(&mut t, name);
    text::put_str(&mut t, " v");
    text::put_str(&mut t, version);
    text::put_str(&mut t, " seed ");
    text::put_dec(&mut t, seed);
    text::put_str(&mut t, " key ");
    text::put_str(&mut t, key);
    text::put_str(&mut t, " progression ");
    text::put_str(&mut t, info.progression.as_str());
    text::put_str(&mut t, " form ");
    text::put_dec(&mut t, info.form as u64);
    text::put_str(&mut t, " motif ");
    text::put_str(
        &mut t,
        if info.motif {
            "on"
        } else {
            "off"
        },
    );
    text::put_str(&mut t, "\n# ");
    text::put_dec(&mut t, r.bars as u64);
    text::put_str(&mut t, " bars, ");
    text::put_dec(&mut t, r.unique_phrases as u64);
    text::put_str(&mut t, " unique phrases, lead density ");
    put_density(&mut t, r);
    text::put_str(&mut t, ", lead range ");
    text::put_dec(&mut t, r.lead_range as u64);
    text::put_str(&mut t, " semitones\n");
    text::string_of(t.as_slice())
}

/// The line printed for a generated song.
pub open spec fn gen_line_text(
    path: Seq<char>,
    title: Seq<char>,
    seed: u64,
    info: InfoView,
    bpm: u16,
    r: Report,
) -> Seq<char> {
    path + "\t"@ + title + "\tseed="@ + text::dec(seed as nat) + "\tkey="@ + vip::key_text(
        info.key as int % 12,
    ) + " "@ + info.scale + "\tbpm="@ + text::dec(bpm as nat) + "\tbars="@ + text::dec(
        r.bars as nat,
    ) + "\tphrases="@ + text::dec(r.unique_phrases as nat) + "\tdensity="@ + density_text(r)
        + "\trange="@ + text::dec(r.lead_range as nat) + "\tdrums="@ + text::dec(
        r.drum_hits as nat,
    )
}

pub fn gen_line(
    path: &str,
    title: &str,
    seed: u64,
    info: &GenInfo,
    bpm: u16,
    r: &Report,
) -> (t: String)
    ensures
        t@ == gen_line_text(path@, title@, seed, info@, bpm, *r),
{
    let mut t: Vec<char> = text::chars_of(path);
    text::put_str(&mut t, "\t");
    text::put_str(&mut t, title);
    text::put_str(&mut t, "\tseed=");
    text::put_dec(&mut t, seed);
    text::put_str(&mut t, "\tkey=");
    text::put_str(&mut t, vip::key_name(info.key));
    text::put_str(&mut t, " ");
    text::put_str(&mut t, info.scale.as_str());
    text::put_str(&mut t, "\tbpm=");
    text::put_dec(&mut t, bpm as u64);
    text::put_str(&mut t, "\tbars=");
    text::put_dec(&mut t, r.bars as u64);
    text::put_str(&mut t, "\tphrases=");
    text::put_dec(&mut t, r.unique_phrases as u64);
    text::put_str(&mut t, "\tdensity=");
    put_density(&mut t, r);
    text::put_str(&mut t, "\trange=");
    text::put_dec(&mut t, r.lead_range as u64);
    text::put_str(&mut t, "\tdrums=");
    text::put_dec(&mut t, r.drum_hits as u64);
    text::string_of(t.as_slice())
}

// ---------------------------------------------------------------- import

/// A text with every line but the first behind a comment sign.
pub open spec fn commented(s: Seq<char>, k: nat) -> Seq<char>
    decreases k,
{
    if k == 0 {
        Seq::empty()
    } else if s[k - 1] == '\n' {
        commented(s, (k - 1) as nat) + "\n# "@
    } else {
        commented(s, (k - 1) as nat).push(s[k - 1])
    }
}

/// The comment over an imported song.
pub open spec fn import_header_text(
    midi: Seq<char>,
    map: Seq<char>,
    summary: Seq<char>,
) -> Seq<char> {
    "# imported by viper import from "@ + midi + " with "@ + map + "\n# "@ + commented(
        summary,
        summary.len(),
    ) + "\n"@
}

pub fn import_header(midi: &str, map: &str, summary: &str) -> (t: String)
    ensures
        t@ == import_header_text(midi@, map@, summary@),
{
    let s: Vec<char> = text::chars_of(summary);
    let mut body: Vec<char> = Vec::new();
    for i in 0..s.len()
        invariant
            body@ == commented(s@, i as nat),
    {
        if s[i] == '\n' {
            text::put_str(&mut body, "\n# ");
        } else {
            body.push(s[i]);
        }
    }
    let mut t: Vec<char> = Vec::new();
    text::put_str(&mut t, "# imported by viper import from ");
    assert(t@ =~= "# imported by viper import from "@);
    text::put_str(&mut t, midi);
    text::put_str(&mut t, " with ");
    text::put_str(&mut t, map);
    text::put_str(&mut t, "\n# ");
    text::put(&mut t, body.as_slice());
    text::put_str(&mut t, "\n");
    text::string_of(t.as_slice())
}

/// Every line of an imported song's comment is a comment.
pub proof fn law_import_header_is_comment(s: Seq<char>, k: nat)
    requires
        k <= s.len(),
    ensures
        forall|i: int|
            0 <= i < commented(s, k).len() && #[trigger] commented(s, k)[i] == '\n' ==> i + 1
                < commented(s, k).len() && commented(s, k)[i + 1] == '#',
    decreases k,
{
    reveal_strlit("\n# ");
    if k > 0 {
        law_import_header_is_comment(s, (k - 1) as nat);
        let p = commented(s, (k - 1) as nat);
        let c = commented(s, k);
        assert forall|i: int| 0 <= i < c.len() && #[trigger] c[i] == '\n' implies i + 1 < c.len()
            && c[i + 1] == '#' by {
            if i < p.len() {
                assert(c[i] == p[i]);
                assert(c[i + 1] == p[i + 1]);
            }
        }
    }
}

// ---------------------------------------------------------------- render

/// How many frames to render: the intro, the loop as often as asked and at
/// least once, and the tail.
pub open spec fn frames_to_render(intro: u32, looped: u32, loops: u32, tail: u32) -> int {
    intro + looped * (if loops < 1 {
        1int
    } else {
        loops as int
    }) + tail
}

pub fn render_frames(intro: u32, looped: u32, loops: u32, tail: u32) -> (r: Option<u32>)
    ensures
        match r {
            Some(n) => n == frames_to_render(intro, looped, loops, tail),
            None => frames_to_render(intro, looped, loops, tail) > u32::MAX,
        },
{
    let times: u128 = if loops < 1 {
        1
    } else {
        loops as u128
    };
    assert(looped * times <= u32::MAX * u32::MAX) by (nonlinear_arith)
        requires
            looped <= u32::MAX,
            times <= u32::MAX,
    ;
    let n: u128 = intro as u128 + looped as u128 * times + tail as u128;
    if n > u32::MAX as u128 {
        None
    } else {
        Some(n as u32)
    }
}

/// A loop is played once at least, and each time more adds its own frames and
/// no others.
pub proof fn law_every_loop_adds_its_frames(intro: u32, looped: u32, loops: u32, tail: u32)
    requires
        loops < u32::MAX,
    ensures
        frames_to_render(intro, looped, 0, tail) == intro + looped + tail,
        frames_to_render(intro, looped, 1, tail) == intro + looped + tail,
        loops > 0 ==> frames_to_render(intro, looped, (loops + 1) as u32, tail)
            == frames_to_render(intro, looped, loops, tail) + looped,
{
    assert(looped * (loops + 1) == looped * loops + looped) by (nonlinear_arith);
    assert(looped * 1 == looped);
}

/// How many of the first `k` start below a value.
pub open spec fn below(v: Seq<u8>, x: u8, k: nat) -> nat
    decreases k,
{
    if k == 0 {
        0
    } else {
        below(v, x, (k - 1) as nat) + (if v[k - 1] < x {
            1nat
        } else {
            0nat
        })
    }
}

/// The name of a stem. A sample's stem is numbered by first use, and its
/// start tells its place in the song's table: starts increase along it.
pub open spec fn stem_name(
    name: Seq<char>,
    starts: Seq<u8>,
    samples: Seq<Seq<char>>,
) -> Seq<char> {
    if name.len() >= 4 && name.take(4) == "dpcm"@ && text::parse_uint(
        name.skip(4),
        10,
        usize::MAX as nat,
    ) is Some {
        let i = text::parse_uint(name.skip(4), 10, usize::MAX as nat)->0;
        if i < starts.len() && below(starts, starts[i as int], starts.len()) < samples.len() {
            samples[below(starts, starts[i as int], starts.len()) as int]
        } else {
            name
        }
    } else {
        name
    }
}

fn count_below(v: &Vec<u8>, x: u8) -> (r: usize)
    ensures
        r == below(v@, x, v@.len()),
{
    let mut r: usize = 0;
    for k in 0..v.len()
        invariant
            r == below(v@, x, k as nat),
            r <= k,
    {
        if v[k] < x {
            r = r + 1;
        }
    }
    r
}

pub fn name_stem(name: &str, starts: &Vec<u8>, samples: &Vec<String>) -> (r: String)
    ensures
        r@ == stem_name(name@, starts@, text::texts(samples@)),
{
    let c: Vec<char> = text::chars_of(name);
    assert(text::texts(samples@).len() == samples@.len());
    if c.len() >= 4 && text::is_lit(text::head(c.as_slice(), 4), "dpcm") {
        if let Some(i) = text::read_uint(text::tail(c.as_slice(), 4), 10, usize::MAX as u64) {
            if i < starts.len() as u64 {
                let k: usize = count_below(starts, starts[i as usize]);
                if k < samples.len() {
                    assert(text::texts(samples@)[k as int] == samples@[k as int]@);
                    return copy_string(samples[k].as_str());
                }
            }
        }
    }
    copy_string(name)
}

/// The drum note of a trigger: samples by first use, and noise as a closed
/// hat.
pub open spec fn trigger_drum(sample: Option<usize>) -> u8 {
    match sample {
        None => 42,
        Some(i) => if i == 0 {
            36
        } else if i == 1 {
            38
        } else if i == 2 {
            42
        } else if i == 3 {
            46
        } else if i == 4 {
            49
        } else {
            45
        },
    }
}

pub fn trigger_note(sample: Option<usize>) -> (r: u8)
    ensures
        r == trigger_drum(sample),
{
    match sample {
        None => 42,
        Some(i) => if i == 0 {
            36
        } else if i == 1 {
            38
        } else if i == 2 {
            42
        } else if i == 3 {
            46
        } else if i == 4 {
            49
        } else {
            45
        },
    }
}

// ---------------------------------------------------------------- samples and tracks

/// A sample that the hardware can play: one byte over a multiple of 16, and
/// not too long.
pub fn sample_fits(len: usize) -> (r: bool)
    ensures
        r == (len % 16 == 1 && len <= 4081),
{
    len % 16 == 1 && len <= 4081
}

/// The room that a sample takes, in blocks of 64 bytes; `None` where that
/// cannot be counted.
pub fn aligned_len(len: usize) -> (r: Option<usize>)
    ensures
        match r {
            Some(n) => n % 64 == 0 && len <= n < len + 64,
            None => len + 63 > usize::MAX,
        },
{
    if len > usize::MAX - 63 {
        return None;
    }
    Some((len + 63) / 64 * 64)
}

/// A track's time: minutes, and seconds with two digits.
pub open spec fn time_text(ms: nat) -> Seq<char> {
    let s = ms / 1000 % 60;
    text::dec(ms / 60000) + (if s < 10 {
        ":0"@
    } else {
        ":"@
    }) + text::dec(s)
}

pub fn track_time(ms: u32) -> (r: String)
    ensures
        r@ == time_text(ms as nat),
{
    let s: u32 = ms / 1000 % 60;
    let mut t: Vec<char> = Vec::new();
    text::put_dec(&mut t, (ms / 60000) as u64);
    text::put_str(
        &mut t,
        if s < 10 {
            ":0"
        } else {
            ":"
        },
    );
    text::put_dec(&mut t, s as u64);
    assert(t@ =~= time_text(ms as nat));
    text::string_of(t.as_slice())
}

} // verus!
