//! Modulation bindings: a small expression language that ties what is heard
//! to where sprites are shown.
//!
//! An expression is compiled to postfix code. Numbers stay as spans of the
//! source text; they are evaluated elsewhere.

use vstd::prelude::*;

use crate::sprite::Placement;
use crate::text;

verus! {

// ---------------------------------------------------------------- names

/// What a binding moves.
#[derive(Clone, Copy, Debug, PartialEq, Eq, Structural)]
pub enum Target {
    X,
    Y,
    Scale,
    FlipX,
    FlipY,
    Frame,
    Visible,
}

pub open spec fn target_named(s: Seq<char>) -> Option<Target> {
    let w = text::lower(s);
    if w == "x"@ {
        Some(Target::X)
    } else if w == "y"@ {
        Some(Target::Y)
    } else if w == "scale"@ {
        Some(Target::Scale)
    } else if w == "flipx"@ {
        Some(Target::FlipX)
    } else if w == "flipy"@ {
        Some(Target::FlipY)
    } else if w == "frame"@ {
        Some(Target::Frame)
    } else if w == "visible"@ || w == "show"@ {
        Some(Target::Visible)
    } else {
        None
    }
}

pub open spec fn target_name(t: Target) -> Seq<char> {
    match t {
        Target::X => "x"@,
        Target::Y => "y"@,
        Target::Scale => "scale"@,
        Target::FlipX => "flipx"@,
        Target::FlipY => "flipy"@,
        Target::Frame => "frame"@,
        Target::Visible => "visible"@,
    }
}

fn find_target(s: &[char]) -> (r: Option<Target>)
    ensures
        r == target_named(s@),
{
    let low: Vec<char> = text::lower_of(s);
    let w: &[char] = low.as_slice();
    if text::is_lit(w, "x") {
        Some(Target::X)
    } else if text::is_lit(w, "y") {
        Some(Target::Y)
    } else if text::is_lit(w, "scale") {
        Some(Target::Scale)
    } else if text::is_lit(w, "flipx") {
        Some(Target::FlipX)
    } else if text::is_lit(w, "flipy") {
        Some(Target::FlipY)
    } else if text::is_lit(w, "frame") {
        Some(Target::Frame)
    } else if text::is_lit(w, "visible") || text::is_lit(w, "show") {
        Some(Target::Visible)
    } else {
        None
    }
}

impl Target {
    pub fn parse(s: &str) -> (r: Option<Target>)
        ensures
            r == target_named(s@),
    {
        find_target(text::chars_of(s).as_slice())
    }

    pub fn name(&self) -> (r: &'static str)
        ensures
            r@ == target_name(*self),
    {
        match self {
            Target::X => "x",
            Target::Y => "y",
            Target::Scale => "scale",
            Target::FlipX => "flipx",
            Target::FlipY => "flipy",
            Target::Frame => "frame",
            Target::Visible => "visible",
        }
    }
}

/// A target's name is read back as that target.
pub proof fn law_target_round_trip(t: Target)
    ensures
        target_named(target_name(t)) == Some(t),
{
    reveal_strlit("x");
    reveal_strlit("y");
    reveal_strlit("scale");
    reveal_strlit("flipx");
    reveal_strlit("flipy");
    reveal_strlit("frame");
    reveal_strlit("visible");
    assert(text::lower(target_name(t)) =~= target_name(t));
    assert("x"@[0] == 'x' && "y"@[0] == 'y');
    assert("scale"@[0] == 's' && "flipx"@[0] == 'f' && "flipx"@[4] == 'x');
    assert("flipy"@[0] == 'f' && "flipy"@[4] == 'y' && "flipy"@[1] == 'l');
    assert("frame"@[0] == 'f' && "frame"@[1] == 'r' && "frame"@[4] == 'e');
}

#[derive(Clone, Copy, Debug, PartialEq, Eq, Structural)]
pub enum VoiceField {
    Env,
    Pitch,
    Gate,
    Vel,
    /// Seconds since the last note began.
    Age,
}

/// What an expression can read.
#[derive(Clone, Copy, Debug, PartialEq, Eq, Structural)]
pub enum Source {
    Voice { ch: u8, field: VoiceField },
    MasterRms,
    Step,
    StepPhase,
    Beat,
    Bar,
    SceneIndex,
    Phrase,
    Tempo,
    Time,
    Playing,
}

/// Why a name is not a source.
#[derive(Clone, Copy, Debug, PartialEq, Eq, Structural)]
pub enum SourceFault {
    UnknownVoice,
    UnknownField,
    UnknownName,
}

pub open spec fn plain_source(w: Seq<char>) -> Option<Source> {
    if w == "master.rms"@ || w == "rms"@ {
        Some(Source::MasterRms)
    } else if w == "step"@ {
        Some(Source::Step)
    } else if w == "step_phase"@ || w == "phase"@ {
        Some(Source::StepPhase)
    } else if w == "beat"@ {
        Some(Source::Beat)
    } else if w == "bar"@ {
        Some(Source::Bar)
    } else if w == "scene.index"@ || w == "scene"@ {
        Some(Source::SceneIndex)
    } else if w == "phrase"@ {
        Some(Source::Phrase)
    } else if w == "tempo"@ || w == "bpm"@ {
        Some(Source::Tempo)
    } else if w == "time"@ || w == "t"@ {
        Some(Source::Time)
    } else if w == "playing"@ {
        Some(Source::Playing)
    } else {
        None
    }
}

pub open spec fn voice_named(w: Seq<char>) -> Option<u8> {
    if w == "pu1"@ {
        Some(0)
    } else if w == "pu2"@ {
        Some(1)
    } else if w == "tri"@ {
        Some(2)
    } else if w == "noi"@ {
        Some(3)
    } else {
        None
    }
}

pub open spec fn field_named(w: Seq<char>) -> Option<VoiceField> {
    if w == "env"@ {
        Some(VoiceField::Env)
    } else if w == "pitch"@ || w == "freq"@ {
        Some(VoiceField::Pitch)
    } else if w == "gate"@ {
        Some(VoiceField::Gate)
    } else if w == "vel"@ {
        Some(VoiceField::Vel)
    } else if w == "age"@ {
        Some(VoiceField::Age)
    } else {
        None
    }
}

/// The source a name stands for: a word of its own, or a voice and one of
/// its fields with a dot between them.
pub open spec fn source_named(s: Seq<char>) -> Result<Source, SourceFault> {
    let w = text::lower(s);
    match plain_source(w) {
        Some(x) => Ok(x),
        None => {
            let d = text::char_index(w, '.') as int;
            if d >= w.len() {
                Err(SourceFault::UnknownName)
            } else {
                match voice_named(w.take(d)) {
                    None => Err(SourceFault::UnknownVoice),
                    Some(ch) => match field_named(w.skip(d + 1)) {
                        None => Err(SourceFault::UnknownField),
                        Some(field) => Ok(Source::Voice { ch, field }),
                    },
                }
            }
        },
    }
}

fn find_plain(w: &[char]) -> (r: Option<Source>)
    ensures
        r == plain_source(w@),
{
    if text::is_lit(w, "master.rms") || text::is_lit(w, "rms") {
        Some(Source::MasterRms)
    } else if text::is_lit(w, "step") {
        Some(Source::Step)
    } else if text::is_lit(w, "step_phase") || text::is_lit(w, "phase") {
        Some(Source::StepPhase)
    } else if text::is_lit(w, "beat") {
        Some(Source::Beat)
    } else if text::is_lit(w, "bar") {
        Some(Source::Bar)
    } else if text::is_lit(w, "scene.index") || text::is_lit(w, "scene") {
        Some(Source::SceneIndex)
    } else if text::is_lit(w, "phrase") {
        Some(Source::Phrase)
    } else if text::is_lit(w, "tempo") || text::is_lit(w, "bpm") {
        Some(Source::Tempo)
    } else if text::is_lit(w, "time") || text::is_lit(w, "t") {
        Some(Source::Time)
    } else if text::is_lit(w, "playing") {
        Some(Source::Playing)
    } else {
        None
    }
}

fn find_voice(w: &[char]) -> (r: Option<u8>)
    ensures
        r == voice_named(w@),
{
    if text::is_lit(w, "pu1") {
        Some(0)
    } else if text::is_lit(w, "pu2") {
        Some(1)
    } else if text::is_lit(w, "tri") {
        Some(2)
    } else if text::is_lit(w, "noi") {
        Some(3)
    } else {
        None
    }
}

fn find_field(w: &[char]) -> (r: Option<VoiceField>)
    ensures
        r == field_named(w@),
{
    if text::is_lit(w, "env") {
        Some(VoiceField::Env)
    } else if text::is_lit(w, "pitch") || text::is_lit(w, "freq") {
        Some(VoiceField::Pitch)
    } else if text::is_lit(w, "gate") {
        Some(VoiceField::Gate)
    } else if text::is_lit(w, "vel") {
        Some(VoiceField::Vel)
    } else if text::is_lit(w, "age") {
        Some(VoiceField::Age)
    } else {
        None
    }
}

pub fn parse_source(s: &[char]) -> (r: Result<Source, SourceFault>)
    ensures
        r == source_named(s@),
{
    let low: Vec<char> = text::lower_of(s);
    let w: &[char] = low.as_slice();
    match find_plain(w) {
        Some(x) => Ok(x),
        None => {
            let d: usize = text::find_char(w, '.');
            if d >= w.len() {
                return Err(SourceFault::UnknownName);
            }
            match find_voice(text::head(w, d)) {
                None => Err(SourceFault::UnknownVoice),
                Some(ch) => match find_field(text::tail(w, d + 1)) {
                    None => Err(SourceFault::UnknownField),
                    Some(field) => Ok(Source::Voice { ch, field }),
                },
            }
        },
    }
}

#[derive(Clone, Copy, Debug, PartialEq, Eq, Structural)]
pub enum Func {
    Abs,
    Sin,
    Cos,
    Floor,
    Min,
    Max,
    Clamp,
}

pub open spec fn func_named(w: Seq<char>) -> Option<Func> {
    if w == "abs"@ {
        Some(Func::Abs)
    } else if w == "sin"@ {
        Some(Func::Sin)
    } else if w == "cos"@ {
        Some(Func::Cos)
    } else if w == "floor"@ {
        Some(Func::Floor)
    } else if w == "min"@ {
        Some(Func::Min)
    } else if w == "max"@ {
        Some(Func::Max)
    } else if w == "clamp"@ {
        Some(Func::Clamp)
    } else {
        None
    }
}

/// How many arguments a function takes.
pub open spec fn func_arity(f: Func) -> nat {
    match f {
        Func::Min | Func::Max => 2,
        Func::Clamp => 3,
        _ => 1,
    }
}

fn find_func(w: &[char]) -> (r: Option<Func>)
    ensures
        r == func_named(w@),
{
    if text::is_lit(w, "abs") {
        Some(Func::Abs)
    } else if text::is_lit(w, "sin") {
        Some(Func::Sin)
    } else if text::is_lit(w, "cos") {
        Some(Func::Cos)
    } else if text::is_lit(w, "floor") {
        Some(Func::Floor)
    } else if text::is_lit(w, "min") {
        Some(Func::Min)
    } else if text::is_lit(w, "max") {
        Some(Func::Max)
    } else if text::is_lit(w, "clamp") {
        Some(Func::Clamp)
    } else {
        None
    }
}

impl Func {
    pub fn arity(&self) -> (r: usize)
        ensures
            r == func_arity(*self),
    {
        match self {
            Func::Min | Func::Max => 2,
            Func::Clamp => 3,
            _ => 1,
        }
    }
}

// ---------------------------------------------------------------- tokens

/// A token; names and numbers are spans of the text.
#[derive(Clone, Copy, Debug, PartialEq, Eq, Structural)]
pub enum Tok {
    Num { from: usize, to: usize },
    Ident { from: usize, to: usize },
    Punct(char),
    End,
}

/// Why a text is not a binding.
#[derive(Clone, Copy, Debug, PartialEq, Eq, Structural)]
pub enum BindFault {
    NoEquals,
    EmptyExpression,
    NoAddress,
    NoTarget,
    TooManyTokens,
    BadIndex,
    UnknownTarget,
    BadChar(char),
    /// A closing bracket should stand where this token is.
    NoClose(Tok),
    Unexpected(Tok),
    UnknownFunction(Tok),
    BadArity { func: Func, got: usize },
    BadSource { tok: Tok, fault: SourceFault },
    Trailing,
}

pub open spec fn is_alpha(c: char) -> bool {
    text::is_upper(c) || text::is_lower(c)
}

/// The end of a number that goes on at `i`.
pub open spec fn number_end(s: Seq<char>, i: nat, dot: bool) -> nat
    decreases s.len() - i,
{
    if i >= s.len() {
        i
    } else if text::is_digit(s[i as int]) {
        number_end(s, i + 1, dot)
    } else if s[i as int] == '.' && !dot {
        number_end(s, i + 1, true)
    } else {
        i
    }
}

/// The end of a name that goes on at `i`.
pub open spec fn name_end(s: Seq<char>, i: nat) -> nat
    decreases s.len() - i,
{
    if i < s.len() && (is_alpha(s[i as int]) || text::is_digit(s[i as int]) || s[i as int] == '_'
        || s[i as int] == '.') {
        name_end(s, i + 1)
    } else {
        i
    }
}

pub open spec fn starts_number(s: Seq<char>, i: int) -> bool {
    text::is_digit(s[i]) || (s[i] == '.' && i + 1 < s.len() && text::is_digit(s[i + 1]))
}

pub open spec fn is_punct(c: char) -> bool {
    c == '+' || c == '-' || c == '*' || c == '/' || c == '%' || c == '(' || c == ')' || c == ','
}

/// The tokens from `i` on, behind those before it.
pub open spec fn tokens_from(s: Seq<char>, i: nat, before: Seq<Tok>) -> Result<
    Seq<Tok>,
    BindFault,
>
    decreases s.len() - i,
{
    if i >= s.len() {
        Ok(before.push(Tok::End))
    } else {
        let c = s[i as int];
        if text::is_ws(c) {
            tokens_from(s, i + 1, before)
        } else if starts_number(s, i as int) {
            let e = number_end(s, i + 1, c == '.');
            if e <= i || e > s.len() {
                Err(BindFault::BadChar(c))
            } else {
                tokens_from(s, e, before.push(Tok::Num { from: i as usize, to: e as usize }))
            }
        } else if is_alpha(c) || c == '_' {
            let e = name_end(s, i + 1);
            if e <= i || e > s.len() {
                Err(BindFault::BadChar(c))
            } else {
                tokens_from(s, e, before.push(Tok::Ident { from: i as usize, to: e as usize }))
            }
        } else if is_punct(c) {
            tokens_from(s, i + 1, before.push(Tok::Punct(c)))
        } else {
            Err(BindFault::BadChar(c))
        }
    }
}

fn find_number_end(s: &[char], start: usize, dotted: bool) -> (r: usize)
    requires
        start <= s@.len(),
    ensures
        r == number_end(s@, start as nat, dotted),
        start <= r <= s@.len(),
{
    let mut i: usize = start;
    let mut dot: bool = dotted;
    while i < s.len()
        invariant
            start <= i <= s@.len(),
            number_end(s@, start as nat, dotted) == number_end(s@, i as nat, dot),
        decreases s@.len() - i,
    {
        if '0' <= s[i] && s[i] <= '9' {
            i += 1;
        } else if s[i] == '.' && !dot {
            dot = true;
            i += 1;
        } else {
            return i;
        }
    }
    i
}

fn alpha(c: char) -> (r: bool)
    ensures
        r == is_alpha(c),
{
    ('A' <= c && c <= 'Z') || ('a' <= c && c <= 'z')
}

fn find_name_end(s: &[char], start: usize) -> (r: usize)
    requires
        start <= s@.len(),
    ensures
        r == name_end(s@, start as nat),
        start <= r <= s@.len(),
{
    let mut i: usize = start;
    while i < s.len() && (alpha(s[i]) || ('0' <= s[i] && s[i] <= '9') || s[i] == '_' || s[i]
        == '.')
        invariant
            start <= i <= s@.len(),
            name_end(s@, start as nat) == name_end(s@, i as nat),
        decreases s@.len() - i,
    {
        i += 1;
    }
    i
}

/// Whether names and numbers are spans of the text, and an end stands last
/// and nowhere else.
pub open spec fn well_cut(t: Seq<Tok>, n: nat) -> bool {
    forall|i: int|
        0 <= i < t.len() ==> match #[trigger] t[i] {
            Tok::Num { from, to } => from < to <= n,
            Tok::Ident { from, to } => from < to <= n,
            Tok::Punct(_) => true,
            Tok::End => i == t.len() - 1,
        }
}

pub fn tokenize(s: &[char]) -> (r: Result<Vec<Tok>, BindFault>)
    ensures
        match r {
            Ok(t) => tokens_from(s@, 0, Seq::empty()) == Ok::<Seq<Tok>, BindFault>(t@),
            Err(f) => tokens_from(s@, 0, Seq::empty()) == Err::<Seq<Tok>, BindFault>(f),
        },
        r is Ok ==> well_cut(r->Ok_0@, s@.len()) && r->Ok_0@.len() > 0 && r->Ok_0@.last()
            == Tok::End,
{
    let mut t: Vec<Tok> = Vec::new();
    let n: usize = s.len();
    let mut i: usize = 0;
    while i < n
        invariant
            n == s@.len(),
            i <= n,
            tokens_from(s@, 0, Seq::empty()) == tokens_from(s@, i as nat, t@),
            well_cut(t@, n as nat),
            forall|k: int| 0 <= k < t@.len() ==> (#[trigger] t@[k]) != Tok::End,
        decreases n - i,
    {
        let c: char = s[i];
        if text::is_white(c) {
            i += 1;
        } else if ('0' <= c && c <= '9') || (c == '.' && i + 1 < n && '0' <= s[i + 1] && s[i + 1]
            <= '9') {
            let e: usize = find_number_end(s, i + 1, c == '.');
            t.push(Tok::Num { from: i, to: e });
            i = e;
        } else if alpha(c) || c == '_' {
            let e: usize = find_name_end(s, i + 1);
            t.push(Tok::Ident { from: i, to: e });
            i = e;
        } else if c == '+' || c == '-' || c == '*' || c == '/' || c == '%' || c == '(' || c == ')'
            || c == ',' {
            t.push(Tok::Punct(c));
            i += 1;
        } else {
            return Err(BindFault::BadChar(c));
        }
    }
    t.push(Tok::End);
    Ok(t)
}

// ---------------------------------------------------------------- expressions

#[derive(Clone, Copy, Debug, PartialEq, Eq, Structural)]
pub enum Op {
    Add,
    Sub,
    Mul,
    Div,
    Mod,
}

/// An instruction of postfix code.
#[derive(Clone, Copy, Debug, PartialEq, Eq, Structural)]
pub enum Instr {
    /// The number at a span of the text.
    Lit { from: usize, to: usize },
    Src(Source),
    Neg,
    Bin(Op),
    Call(Func),
}

/// How many values are on the stack after the first `k` instructions, where
/// no instruction finds too few.
pub open spec fn depth(code: Seq<Instr>, from: nat, k: nat) -> Option<nat>
    decreases k,
{
    if k == 0 {
        Some(from)
    } else {
        match depth(code, from, (k - 1) as nat) {
            None => None,
            Some(d) => {
                let takes: nat = match code[k - 1] {
                    Instr::Lit { .. } | Instr::Src(_) => 0,
                    Instr::Neg => 1,
                    Instr::Bin(_) => 2,
                    Instr::Call(f) => func_arity(f),
                };
                if d < takes {
                    None
                } else {
                    Some((d - takes + 1) as nat)
                }
            },
        }
    }
}

/// Code that leaves `n` values more than it found, whatever it found, and
/// takes no others.
pub open spec fn leaves(code: Seq<Instr>, n: nat) -> bool {
    forall|d: nat| #[trigger] depth(code, d, code.len()) == Some(d + n)
}

proof fn lemma_depth_prefix(a: Seq<Instr>, b: Seq<Instr>, d: nat, k: nat)
    requires
        k <= a.len(),
    ensures
        depth(a + b, d, k) == depth(a, d, k),
    decreases k,
{
    if k > 0 {
        lemma_depth_prefix(a, b, d, (k - 1) as nat);
        assert((a + b)[k - 1] == a[k - 1]);
    }
}

proof fn lemma_depth_join(a: Seq<Instr>, b: Seq<Instr>, d: nat, m: nat, k: nat)
    requires
        k <= b.len(),
        depth(a, d, a.len()) == Some(m),
    ensures
        depth(a + b, d, a.len() + k) == depth(b, m, k),
    decreases k,
{
    if k == 0 {
        lemma_depth_prefix(a, b, d, a.len());
    } else {
        lemma_depth_join(a, b, d, m, (k - 1) as nat);
        assert((a + b)[a.len() + k - 1] == b[k - 1]);
    }
}

proof fn lemma_leaves_join(a: Seq<Instr>, b: Seq<Instr>, m: nat, n: nat)
    requires
        leaves(a, m),
        leaves(b, n),
    ensures
        leaves(a + b, m + n),
{
    assert forall|d: nat| #[trigger] depth(a + b, d, (a + b).len()) == Some(d + (m + n)) by {
        assert(depth(a, d, a.len()) == Some(d + m));
        lemma_depth_join(a, b, d, d + m, b.len());
        assert(depth(b, d + m, b.len()) == Some(d + m + n));
    }
}

proof fn lemma_leaves_push(a: Seq<Instr>, x: Instr, m: nat, takes: nat)
    requires
        leaves(a, m),
        takes <= m,
        takes == (match x {
            Instr::Lit { .. } | Instr::Src(_) => 0nat,
            Instr::Neg => 1,
            Instr::Bin(_) => 2,
            Instr::Call(f) => func_arity(f),
        }),
    ensures
        leaves(a.push(x), (m - takes + 1) as nat),
{
    assert forall|d: nat| #[trigger]
        depth(a.push(x), d, a.push(x).len()) == Some(d + (m - takes + 1) as nat) by {
        assert(a.push(x) =~= a + seq![x]);
        lemma_depth_prefix(a, seq![x], d, a.len());
        assert(depth(a, d, a.len()) == Some(d + m));
        assert(a.push(x)[a.len() as int] == x);
    }
}

/// Code, and the token behind it.
pub struct Parsed {
    pub code: Seq<Instr>,
    pub next: nat,
}

pub open spec fn tok_at(t: Seq<Tok>, i: nat) -> Tok {
    if i < t.len() {
        t[i as int]
    } else {
        Tok::End
    }
}

pub open spec fn sum_op(t: Tok) -> Option<Op> {
    if t == Tok::Punct('+') {
        Some(Op::Add)
    } else if t == Tok::Punct('-') {
        Some(Op::Sub)
    } else {
        None
    }
}

pub open spec fn product_op(t: Tok) -> Option<Op> {
    if t == Tok::Punct('*') {
        Some(Op::Mul)
    } else if t == Tok::Punct('/') {
        Some(Op::Div)
    } else if t == Tok::Punct('%') {
        Some(Op::Mod)
    } else {
        None
    }
}

/// An expression: products, added and subtracted from left to right.
pub open spec fn expr(s: Seq<char>, t: Seq<Tok>, i: nat) -> Result<Parsed, BindFault>
    decreases t.len() - i, 4nat,
{
    match product(s, t, i) {
        Err(f) => Err(f),
        Ok(p) => if p.next <= i || p.next > t.len() {
            Err(BindFault::Trailing)
        } else {
            sum_rest(s, t, p.code, p.next)
        },
    }
}

/// The rest of a sum whose first terms are known.
pub open spec fn sum_rest(s: Seq<char>, t: Seq<Tok>, code: Seq<Instr>, i: nat) -> Result<
    Parsed,
    BindFault,
>
    decreases t.len() - i, 4nat,
{
    match sum_op(tok_at(t, i)) {
        None => Ok(Parsed { code, next: i }),
        Some(op) => match product(s, t, i + 1) {
            Err(f) => Err(f),
            Ok(p) => if p.next <= i || p.next > t.len() {
                Err(BindFault::Trailing)
            } else {
                sum_rest(s, t, (code + p.code).push(Instr::Bin(op)), p.next)
            },
        },
    }
}

/// Factors, multiplied and divided from left to right.
pub open spec fn product(s: Seq<char>, t: Seq<Tok>, i: nat) -> Result<Parsed, BindFault>
    decreases t.len() - i, 3nat,
{
    match factor(s, t, i) {
        Err(f) => Err(f),
        Ok(p) => if p.next <= i || p.next > t.len() {
            Err(BindFault::Trailing)
        } else {
            product_rest(s, t, p.code, p.next)
        },
    }
}

/// The rest of a product whose first factors are known.
pub open spec fn product_rest(s: Seq<char>, t: Seq<Tok>, code: Seq<Instr>, i: nat) -> Result<
    Parsed,
    BindFault,
>
    decreases t.len() - i, 3nat,
{
    match product_op(tok_at(t, i)) {
        None => Ok(Parsed { code, next: i }),
        Some(op) => match factor(s, t, i + 1) {
            Err(f) => Err(f),
            Ok(p) => if p.next <= i || p.next > t.len() {
                Err(BindFault::Trailing)
            } else {
                product_rest(s, t, (code + p.code).push(Instr::Bin(op)), p.next)
            },
        },
    }
}

/// A factor and its signs.
pub open spec fn factor(s: Seq<char>, t: Seq<Tok>, i: nat) -> Result<Parsed, BindFault>
    decreases t.len() - i, 2nat,
{
    if tok_at(t, i) == Tok::Punct('-') {
        match factor(s, t, i + 1) {
            Err(f) => Err(f),
            Ok(p) => Ok(Parsed { code: p.code.push(Instr::Neg), next: p.next }),
        }
    } else if tok_at(t, i) == Tok::Punct('+') {
        factor(s, t, i + 1)
    } else {
        primary(s, t, i)
    }
}

/// A number, a source, a call, or an expression in brackets.
pub open spec fn primary(s: Seq<char>, t: Seq<Tok>, i: nat) -> Result<Parsed, BindFault>
    decreases t.len() - i, 1nat,
{
    match tok_at(t, i) {
        Tok::Num { from, to } => Ok(
            Parsed { code: seq![Instr::Lit { from, to }], next: i + 1 },
        ),
        Tok::Ident { from, to } => {
            let name = s.subrange(from as int, to as int);
            if tok_at(t, i + 1) == Tok::Punct('(') {
                let args = if tok_at(t, i + 2) == Tok::Punct(')') {
                    Ok(Args { code: Seq::empty(), count: 0, next: i + 2 })
                } else {
                    arguments(s, t, Seq::empty(), 0, i + 2)
                };
                match args {
                    Err(f) => Err(f),
                    Ok(a) => if tok_at(t, a.next) != Tok::Punct(')') {
                        Err(BindFault::NoClose(tok_at(t, a.next)))
                    } else {
                        match func_named(name) {
                            None => Err(BindFault::UnknownFunction(Tok::Ident { from, to })),
                            Some(f) => if a.count != func_arity(f) {
                                Err(BindFault::BadArity { func: f, got: a.count as usize })
                            } else {
                                Ok(Parsed { code: a.code.push(Instr::Call(f)), next: a.next + 1 })
                            },
                        }
                    },
                }
            } else {
                match source_named(name) {
                    Ok(x) => Ok(Parsed { code: seq![Instr::Src(x)], next: i + 1 }),
                    Err(fault) => Err(
                        BindFault::BadSource { tok: Tok::Ident { from, to }, fault },
                    ),
                }
            }
        },
        Tok::Punct(c) => if c == '(' {
            match expr(s, t, i + 1) {
                Err(f) => Err(f),
                Ok(p) => if tok_at(t, p.next) == Tok::Punct(')') {
                    Ok(Parsed { code: p.code, next: p.next + 1 })
                } else {
                    Err(BindFault::NoClose(tok_at(t, p.next)))
                },
            }
        } else {
            Err(BindFault::Unexpected(Tok::Punct(c)))
        },
        Tok::End => Err(BindFault::Unexpected(Tok::End)),
    }
}

/// Arguments of a call: their code, how many, and the token behind them.
pub struct Args {
    pub code: Seq<Instr>,
    pub count: nat,
    pub next: nat,
}

/// The arguments from `i` on, commas between them.
pub open spec fn arguments(
    s: Seq<char>,
    t: Seq<Tok>,
    code: Seq<Instr>,
    count: nat,
    i: nat,
) -> Result<Args, BindFault>
    decreases t.len() - i, 5nat,
{
    match expr(s, t, i) {
        Err(f) => Err(f),
        Ok(p) => if p.next <= i || p.next > t.len() {
            Err(BindFault::Trailing)
        } else if tok_at(t, p.next) == Tok::Punct(',') {
            arguments(s, t, code + p.code, count + 1, p.next + 1)
        } else {
            Ok(Args { code: code + p.code, count: count + 1, next: p.next })
        },
    }
}

struct Frag {
    code: Vec<Instr>,
    next: usize,
}

/// What a parse must give back.
spec fn is_parse(r: Result<Frag, BindFault>, want: Result<Parsed, BindFault>, i: nat, n: nat) -> bool {
    match r {
        Ok(p) => {
            &&& want == Ok::<Parsed, BindFault>(Parsed { code: p.code@, next: p.next as nat })
            &&& i < p.next < n
            &&& leaves(p.code@, 1)
        },
        Err(f) => want == Err::<Parsed, BindFault>(f),
    }
}

/// Tokens with an end, cut out of a text.
spec fn is_cut(s: Seq<char>, t: Seq<Tok>) -> bool {
    t.len() > 0 && t.last() == Tok::End && well_cut(t, s.len())
}

fn append(a: &mut Vec<Instr>, b: &Vec<Instr>)
    ensures
        final(a)@ == old(a)@ + b@,
{
    let ghost before = a@;
    for i in 0..b.len()
        invariant
            a@ == before + b@.take(i as int),
    {
        a.push(b[i]);
        assert(a@ =~= before + b@.take(i + 1));
    }
    assert(a@ =~= before + b@);
}

fn is_mark(t: Tok, c: char) -> (r: bool)
    ensures
        r == (t == Tok::Punct(c)),
{
    match t {
        Tok::Punct(d) => d == c,
        _ => false,
    }
}

fn find_sum_op(t: Tok) -> (r: Option<Op>)
    ensures
        r == sum_op(t),
{
    if is_mark(t, '+') {
        Some(Op::Add)
    } else if is_mark(t, '-') {
        Some(Op::Sub)
    } else {
        None
    }
}

fn find_product_op(t: Tok) -> (r: Option<Op>)
    ensures
        r == product_op(t),
{
    if is_mark(t, '*') {
        Some(Op::Mul)
    } else if is_mark(t, '/') {
        Some(Op::Div)
    } else if is_mark(t, '%') {
        Some(Op::Mod)
    } else {
        None
    }
}

fn parse_expr(s: &[char], t: &Vec<Tok>, i: usize) -> (r: Result<Frag, BindFault>)
    requires
        is_cut(s@, t@),
        i < t@.len(),
    ensures
        is_parse(r, expr(s@, t@, i as nat), i as nat, t@.len()),
    decreases t@.len() - i, 4nat,
{
    let n: usize = t.len();
    let first: Frag = match parse_product(s, t, i) {
        Ok(p) => p,
        Err(f) => {
            return Err(f);
        },
    };
    let mut code: Vec<Instr> = first.code;
    let mut next: usize = first.next;
    loop
        invariant
            is_cut(s@, t@),
            n == t@.len(),
            i < n,
            i < next < n,
            leaves(code@, 1),
            expr(s@, t@, i as nat) == sum_rest(s@, t@, code@, next as nat),
        decreases t@.len() - next,
    {
        match find_sum_op(t[next]) {
            None => {
                return Ok(Frag { code, next });
            },
            Some(op) => {
                assert(next < t@.len() - 1);
                match parse_product(s, t, next + 1) {
                    Err(f) => {
                        return Err(f);
                    },
                    Ok(p) => {
                        proof {
                            lemma_leaves_join(code@, p.code@, 1, 1);
                            lemma_leaves_push(code@ + p.code@, Instr::Bin(op), 2, 2);
                        }
                        append(&mut code, &p.code);
                        code.push(Instr::Bin(op));
                        next = p.next;
                    },
                }
            },
        }
    }
}

fn parse_product(s: &[char], t: &Vec<Tok>, i: usize) -> (r: Result<Frag, BindFault>)
    requires
        is_cut(s@, t@),
        i < t@.len(),
    ensures
        is_parse(r, product(s@, t@, i as nat), i as nat, t@.len()),
    decreases t@.len() - i, 3nat,
{
    let n: usize = t.len();
    let first: Frag = match parse_factor(s, t, i) {
        Ok(p) => p,
        Err(f) => {
            return Err(f);
        },
    };
    let mut code: Vec<Instr> = first.code;
    let mut next: usize = first.next;
    loop
        invariant
            is_cut(s@, t@),
            n == t@.len(),
            i < n,
            i < next < n,
            leaves(code@, 1),
            product(s@, t@, i as nat) == product_rest(s@, t@, code@, next as nat),
        decreases t@.len() - next,
    {
        match find_product_op(t[next]) {
            None => {
                return Ok(Frag { code, next });
            },
            Some(op) => {
                assert(next < t@.len() - 1);
                match parse_factor(s, t, next + 1) {
                    Err(f) => {
                        return Err(f);
                    },
                    Ok(p) => {
                        proof {
                            lemma_leaves_join(code@, p.code@, 1, 1);
                            lemma_leaves_push(code@ + p.code@, Instr::Bin(op), 2, 2);
                        }
                        append(&mut code, &p.code);
                        code.push(Instr::Bin(op));
                        next = p.next;
                    },
                }
            },
        }
    }
}

fn parse_factor(s: &[char], t: &Vec<Tok>, i: usize) -> (r: Result<Frag, BindFault>)
    requires
        is_cut(s@, t@),
        i < t@.len(),
    ensures
        is_parse(r, factor(s@, t@, i as nat), i as nat, t@.len()),
    decreases t@.len() - i, 2nat,
{
    let n: usize = t.len();
    if is_mark(t[i], '-') {
        assert(i < t@.len() - 1);
        match parse_factor(s, t, i + 1) {
            Err(f) => Err(f),
            Ok(p) => {
                let mut code: Vec<Instr> = p.code;
                proof {
                    lemma_leaves_push(code@, Instr::Neg, 1, 1);
                }
                code.push(Instr::Neg);
                Ok(Frag { code, next: p.next })
            },
        }
    } else if is_mark(t[i], '+') {
        assert(i < t@.len() - 1);
        parse_factor(s, t, i + 1)
    } else {
        parse_primary(s, t, i)
    }
}

proof fn lemma_leaves_nothing()
    ensures
        leaves(Seq::empty(), 0),
{
    let none = Seq::<Instr>::empty();
    assert forall|d: nat| #[trigger] depth(none, d, none.len()) == Some(d + 0nat) by {}
}

fn one(x: Instr) -> (r: Vec<Instr>)
    requires
        x is Lit || x is Src,
    ensures
        r@ == seq![x],
        leaves(r@, 1),
{
    let mut v: Vec<Instr> = Vec::new();
    v.push(x);
    assert(v@ =~= seq![x]);
    proof {
        lemma_leaves_nothing();
        lemma_leaves_push(Seq::empty(), x, 0, 0);
        assert(Seq::<Instr>::empty().push(x) =~= v@);
    }
    v
}

struct ArgFrag {
    code: Vec<Instr>,
    count: usize,
    next: usize,
}

fn parse_arguments(s: &[char], t: &Vec<Tok>, i: usize) -> (r: Result<ArgFrag, BindFault>)
    requires
        is_cut(s@, t@),
        i < t@.len(),
    ensures
        match r {
            Ok(a) => {
                &&& arguments(s@, t@, Seq::empty(), 0, i as nat) == Ok::<Args, BindFault>(
                    Args { code: a.code@, count: a.count as nat, next: a.next as nat },
                )
                &&& i < a.next < t@.len()
                &&& leaves(a.code@, a.count as nat)
            },
            Err(f) => arguments(s@, t@, Seq::empty(), 0, i as nat) == Err::<Args, BindFault>(f),
        },
    decreases t@.len() - i, 5nat,
{
    let mut code: Vec<Instr> = Vec::new();
    let mut count: usize = 0;
    let mut at: usize = i;
    proof {
        lemma_leaves_nothing();
        assert(code@ =~= Seq::empty());
    }
    let n: usize = t.len();
    loop
        invariant
            is_cut(s@, t@),
            n == t@.len(),
            i <= at < n,
            count <= at,
            leaves(code@, count as nat),
            arguments(s@, t@, Seq::empty(), 0, i as nat) == arguments(
                s@,
                t@,
                code@,
                count as nat,
                at as nat,
            ),
        decreases n - at,
    {
        match parse_expr(s, t, at) {
            Err(f) => {
                return Err(f);
            },
            Ok(p) => {
                proof {
                    lemma_leaves_join(code@, p.code@, count as nat, 1);
                }
                append(&mut code, &p.code);
                count = count + 1;
                if is_mark(t[p.next], ',') {
                    assert(p.next < n - 1);
                    at = p.next + 1;
                } else {
                    return Ok(ArgFrag { code, count, next: p.next });
                }
            },
        }
    }
}

fn parse_primary(s: &[char], t: &Vec<Tok>, i: usize) -> (r: Result<Frag, BindFault>)
    requires
        is_cut(s@, t@),
        i < t@.len(),
    ensures
        is_parse(r, primary(s@, t@, i as nat), i as nat, t@.len()),
    decreases t@.len() - i, 1nat,
{
    let n: usize = t.len();
    match t[i] {
        Tok::End => Err(BindFault::Unexpected(Tok::End)),
        Tok::Num { from, to } => {
            assert(t@[i as int] != Tok::End);
            Ok(Frag { code: one(Instr::Lit { from, to }), next: i + 1 })
        },
        Tok::Punct(c) => {
            assert(t@[i as int] != Tok::End);
            if c != '(' {
                return Err(BindFault::Unexpected(Tok::Punct(c)));
            }
            match parse_expr(s, t, i + 1) {
                Err(f) => Err(f),
                Ok(p) => {
                    if is_mark(t[p.next], ')') {
                        assert(p.next < t@.len() - 1);
                        Ok(Frag { code: p.code, next: p.next + 1 })
                    } else {
                        Err(BindFault::NoClose(t[p.next]))
                    }
                },
            }
        },
        Tok::Ident { from, to } => {
            assert(t@[i as int] != Tok::End);
            let name: &[char] = vstd::slice::slice_subrange(s, from, to);
            if is_mark(t[i + 1], '(') {
                assert(i + 1 < t@.len() - 1);
                let args: ArgFrag = if is_mark(t[i + 2], ')') {
                    proof {
                        lemma_leaves_nothing();
                    }
                    let none: Vec<Instr> = Vec::new();
                    assert(none@ =~= Seq::empty());
                    ArgFrag { code: none, count: 0, next: i + 2 }
                } else {
                    match parse_arguments(s, t, i + 2) {
                        Ok(a) => a,
                        Err(f) => {
                            return Err(f);
                        },
                    }
                };
                if !is_mark(t[args.next], ')') {
                    return Err(BindFault::NoClose(t[args.next]));
                }
                assert(args.next < t@.len() - 1);
                match find_func(name) {
                    None => Err(BindFault::UnknownFunction(Tok::Ident { from, to })),
                    Some(f) => {
                        if args.count != f.arity() {
                            return Err(BindFault::BadArity { func: f, got: args.count });
                        }
                        let mut code: Vec<Instr> = args.code;
                        proof {
                            lemma_leaves_push(
                                code@,
                                Instr::Call(f),
                                args.count as nat,
                                func_arity(f),
                            );
                        }
                        code.push(Instr::Call(f));
                        Ok(Frag { code, next: args.next + 1 })
                    },
                }
            } else {
                match parse_source(name) {
                    Ok(x) => Ok(Frag { code: one(Instr::Src(x)), next: i + 1 }),
                    Err(fault) => Err(
                        BindFault::BadSource { tok: Tok::Ident { from, to }, fault },
                    ),
                }
            }
        },
    }
}

/// The code of a whole text.
pub open spec fn code_of(s: Seq<char>) -> Result<Seq<Instr>, BindFault> {
    match tokens_from(s, 0, Seq::empty()) {
        Err(f) => Err(f),
        Ok(t) => match expr(s, t, 0) {
            Err(f) => Err(f),
            Ok(p) => if tok_at(t, p.next) == Tok::End {
                Ok(p.code)
            } else {
                Err(BindFault::Trailing)
            },
        },
    }
}

/// Compiles an expression. The code leaves one value and never finds too few.
pub fn compile_expr(s: &[char]) -> (r: Result<Vec<Instr>, BindFault>)
    ensures
        match r {
            Ok(c) => code_of(s@) == Ok::<Seq<Instr>, BindFault>(c@),
            Err(f) => code_of(s@) == Err::<Seq<Instr>, BindFault>(f),
        },
        r is Ok ==> leaves(r->Ok_0@, 1),
{
    let t: Vec<Tok> = match tokenize(s) {
        Ok(t) => t,
        Err(f) => {
            return Err(f);
        },
    };
    match parse_expr(s, &t, 0) {
        Err(f) => Err(f),
        Ok(p) => match t[p.next] {
            Tok::End => Ok(p.code),
            _ => Err(BindFault::Trailing),
        },
    }
}

// ---------------------------------------------------------------- bindings

/// Which of a sheet's sprites a binding moves.
#[derive(Clone, Copy, Debug, PartialEq, Eq, Structural)]
pub enum IdxPat {
    Exact(u32),
    Wildcard,
}

#[derive(Clone, Debug)]
pub struct Binding {
    pub sheet: String,
    pub idx: IdxPat,
    pub target: Target,
    pub code: Vec<Instr>,
    /// The expression's text.
    pub expr_src: String,
}

#[verifier::ext_equal]
pub struct BindingView {
    pub sheet: Seq<char>,
    pub idx: IdxPat,
    pub target: Target,
    pub code: Seq<Instr>,
    pub expr_src: Seq<char>,
}

impl View for Binding {
    type V = BindingView;

    open spec fn view(&self) -> BindingView {
        BindingView {
            sheet: self.sheet@,
            idx: self.idx,
            target: self.target,
            code: self.code@,
            expr_src: self.expr_src@,
        }
    }
}

pub open spec fn addr_text(b: BindingView) -> Seq<char> {
    match b.idx {
        IdxPat::Exact(n) => b.sheet + "."@ + text::dec(n as nat),
        IdxPat::Wildcard => b.sheet + ".*"@,
    }
}

impl Binding {
    /// What the binding moves, as it is written.
    pub fn addr(&self) -> (r: String)
        ensures
            r@ == addr_text(self@),
    {
        let mut t: Vec<char> = text::chars_of(self.sheet.as_str());
        match self.idx {
            IdxPat::Exact(n) => {
                text::put_str(&mut t, ".");
                text::put_dec(&mut t, n as u64);
            },
            IdxPat::Wildcard => {
                text::put_str(&mut t, ".*");
            },
        }
        text::string_of(t.as_slice())
    }
}

/// Where the last dot of the first `k` characters stands, or nothing.
pub open spec fn last_dot(s: Seq<char>, k: nat) -> Option<nat>
    decreases k,
{
    if k == 0 {
        None
    } else if s[k - 1] == '.' {
        Some((k - 1) as nat)
    } else {
        last_dot(s, (k - 1) as nat)
    }
}

fn find_last_dot(s: &[char]) -> (r: Option<usize>)
    ensures
        match r {
            Some(d) => last_dot(s@, s@.len()) == Some(d as nat) && d < s@.len(),
            None => last_dot(s@, s@.len()) is None,
        },
{
    let mut k: usize = s.len();
    while k > 0
        invariant
            k <= s@.len(),
            last_dot(s@, s@.len()) == last_dot(s@, k as nat),
        decreases k,
    {
        if s[k - 1] == '.' {
            return Some(k - 1);
        }
        k -= 1;
    }
    None
}

pub open spec fn index_pattern(s: Seq<char>) -> Option<IdxPat> {
    if s == "*"@ {
        Some(IdxPat::Wildcard)
    } else {
        match text::parse_uint(s, 10, u32::MAX as nat) {
            Some(n) => Some(IdxPat::Exact(n as u32)),
            None => None,
        }
    }
}

/// What an address stands for: a sheet and the sprite after its last dot, or
/// a bare sheet for all its sprites.
pub open spec fn address_of(w: Seq<char>) -> Option<(Seq<char>, IdxPat)> {
    match last_dot(w, w.len()) {
        None => Some((w, IdxPat::Wildcard)),
        Some(d) => match index_pattern(w.skip(d as int + 1)) {
            None => None,
            Some(idx) => Some((w.take(d as int), idx)),
        },
    }
}

fn find_address(w: &[char]) -> (r: Option<(&[char], IdxPat)>)
    ensures
        match r {
            Some((sheet, idx)) => address_of(w@) == Some((sheet@, idx)),
            None => address_of(w@) is None,
        },
{
    let d: usize = match find_last_dot(w) {
        Some(d) => d,
        None => {
            return Some((w, IdxPat::Wildcard));
        },
    };
    let size: usize = w.len();
    assert(d < size);
    let place: &[char] = text::tail(w, d + 1);
    if text::is_lit(place, "*") {
        return Some((text::head(w, d), IdxPat::Wildcard));
    }
    match text::read_uint(place, 10, u32::MAX as u64) {
        Some(n) => Some((text::head(w, d), IdxPat::Exact(n as u32))),
        None => None,
    }
}

/// A bare sheet and the sheet with a star mean the same sprites.
pub proof fn law_bare_sheet_means_all(sheet: Seq<char>)
    requires
        !sheet.contains('.'),
    ensures
        address_of(sheet) == Some((sheet, IdxPat::Wildcard)),
        address_of(sheet + ".*"@) == address_of(sheet),
{
    reveal_strlit(".*");
    reveal_strlit("*");
    lemma_no_dot(sheet, sheet.len());
    lemma_after_dot(sheet, "*"@);
    assert(sheet + ".*"@ =~= sheet + seq!['.'] + "*"@);
}

/// An address reads back as the sheet and the sprite that it was written for.
pub proof fn law_addresses_read_back(b: BindingView)
    ensures
        address_of(addr_text(b)) == Some((b.sheet, b.idx)),
{
    match b.idx {
        IdxPat::Exact(n) => {
            let t = text::dec(n as nat);
            text::lemma_dec(n as nat, u32::MAX as nat);
            text::lemma_dec_digits(n as nat);
            assert(!t.contains('.'));
            reveal_strlit(".");
            reveal_strlit("*");
            assert(t != "*"@) by {
                assert("*"@[0] == '*');
            }
            lemma_after_dot(b.sheet, t);
            assert(addr_text(b) =~= b.sheet + seq!['.'] + t);
        },
        IdxPat::Wildcard => {
            reveal_strlit(".*");
            reveal_strlit("*");
            lemma_after_dot(b.sheet, "*"@);
            assert(addr_text(b) =~= b.sheet + seq!['.'] + "*"@);
        },
    }
}

proof fn lemma_no_dot(s: Seq<char>, k: nat)
    requires
        !s.contains('.'),
        k <= s.len(),
    ensures
        last_dot(s, k) is None,
    decreases k,
{
    if k > 0 {
        assert(s.contains(s[k - 1]));
        lemma_no_dot(s, (k - 1) as nat);
    }
}

/// A dot with none after it is the last.
proof fn lemma_after_dot(s: Seq<char>, t: Seq<char>)
    requires
        !t.contains('.'),
    ensures
        ({
            let w = s + seq!['.'] + t;
            &&& last_dot(w, w.len()) == Some(s.len())
            &&& w.take(s.len() as int) == s
            &&& w.skip(s.len() as int + 1) == t
        }),
{
    let w = s + seq!['.'] + t;
    lemma_dot_found(s, t, t.len());
    assert(w.take(s.len() as int) =~= s);
    assert(w.skip(s.len() as int + 1) =~= t);
}

proof fn lemma_dot_found(s: Seq<char>, t: Seq<char>, k: nat)
    requires
        !t.contains('.'),
        k <= t.len(),
    ensures
        last_dot(s + seq!['.'] + t, s.len() + 1 + k) == Some(s.len()),
    decreases k,
{
    let w = s + seq!['.'] + t;
    if k == 0 {
        assert(w[s.len() as int] == '.');
    } else {
        assert(t.contains(t[k - 1]));
        assert(w[s.len() as int + k as int] == t[k - 1]);
        lemma_dot_found(s, t, (k - 1) as nat);
    }
}

/// A binding: `<sheet>[.<idx|*>] <target> = <expression>`.
pub open spec fn binding_of(spec: Seq<char>) -> Result<BindingView, BindFault> {
    let e = text::char_index(spec, '=') as int;
    let rhs = text::trim(spec.skip(e + 1));
    let words = text::words(spec.take(e));
    if e >= spec.len() {
        Err(BindFault::NoEquals)
    } else if rhs.len() == 0 {
        Err(BindFault::EmptyExpression)
    } else if words.len() == 0 {
        Err(BindFault::NoAddress)
    } else if words.len() == 1 {
        Err(BindFault::NoTarget)
    } else if words.len() > 2 {
        Err(BindFault::TooManyTokens)
    } else {
        match address_of(words[0]) {
            None => Err(BindFault::BadIndex),
            Some((sheet, idx)) => match target_named(words[1]) {
                None => Err(BindFault::UnknownTarget),
                Some(target) => match code_of(rhs) {
                    Err(f) => Err(f),
                    Ok(code) => Ok(BindingView { sheet, idx, target, code, expr_src: rhs }),
                },
            },
        }
    }
}

/// Reads a binding.
pub fn parse_binding(spec: &str) -> (r: Result<Binding, BindFault>)
    ensures
        match r {
            Ok(b) => binding_of(spec@) == Ok::<BindingView, BindFault>(b@),
            Err(f) => binding_of(spec@) == Err::<BindingView, BindFault>(f),
        },
        r is Ok ==> leaves(r->Ok_0.code@, 1),
{
    let all: Vec<char> = text::chars_of(spec);
    let s: &[char] = all.as_slice();
    let e: usize = text::find_char(s, '=');
    if e >= s.len() {
        return Err(BindFault::NoEquals);
    }
    let rhs: &[char] = text::trimmed(text::tail(s, e + 1));
    if rhs.len() == 0 {
        return Err(BindFault::EmptyExpression);
    }
    let words: Vec<&[char]> = text::split_words(text::head(s, e));
    assert(text::views(words@).len() == words@.len());
    if words.len() == 0 {
        return Err(BindFault::NoAddress);
    }
    if words.len() == 1 {
        return Err(BindFault::NoTarget);
    }
    if words.len() > 2 {
        return Err(BindFault::TooManyTokens);
    }
    let addr: &[char] = words[0];
    assert(text::views(words@)[0] == addr@);
    assert(text::views(words@)[1] == words@[1]@);
    let (sheet, idx): (&[char], IdxPat) = match find_address(addr) {
        Some(a) => a,
        None => {
            return Err(BindFault::BadIndex);
        },
    };
    let target: Target = match find_target(words[1]) {
        Some(t) => t,
        None => {
            return Err(BindFault::UnknownTarget);
        },
    };
    match compile_expr(rhs) {
        Err(f) => Err(f),
        Ok(code) => {
            let b: Binding = Binding {
                sheet: text::string_of(sheet),
                idx,
                target,
                code,
                expr_src: text::string_of(rhs),
            };
            Ok(b)
        },
    }
}

// ---------------------------------------------------------------- which apply

/// How many of the first `k` placements show a sheet.
pub open spec fn shown_before(p: Seq<Placement>, sheet: Seq<char>, k: nat) -> nat
    decreases k,
{
    if k == 0 {
        0
    } else {
        shown_before(p, sheet, (k - 1) as nat) + (if p[k - 1].sheet@ == sheet {
            1nat
        } else {
            0
        })
    }
}

/// Whether a binding moves a placement: it names its sheet, and its place
/// among the sheet's placements or all of them.
pub open spec fn applies(b: Binding, p: Seq<Placement>, k: int) -> bool {
    b.sheet@ == p[k].sheet@ && match b.idx {
        IdxPat::Wildcard => true,
        IdxPat::Exact(n) => n == shown_before(p, p[k].sheet@, k as nat),
    }
}

/// The first `j` bindings that move a placement.
pub open spec fn applying(b: Seq<Binding>, p: Seq<Placement>, k: int, j: nat) -> Seq<usize>
    decreases j,
{
    if j == 0 {
        Seq::empty()
    } else {
        let before = applying(b, p, k, (j - 1) as nat);
        if applies(b[j - 1], p, k) {
            before.push((j - 1) as usize)
        } else {
            before
        }
    }
}

fn count_shown(p: &[Placement], k: usize) -> (r: usize)
    requires
        k < p@.len(),
    ensures
        r == shown_before(p@, p@[k as int].sheet@, k as nat),
{
    let mut n: usize = 0;
    for i in 0..k
        invariant
            k < p@.len(),
            n == shown_before(p@, p@[k as int].sheet@, i as nat),
            n <= i,
    {
        if text::same_str(p[i].sheet.as_str(), p[k].sheet.as_str()) {
            n += 1;
        }
    }
    n
}

/// The bindings that move a placement, in order.
pub fn bindings_for(b: &[Binding], p: &[Placement], k: usize) -> (r: Vec<usize>)
    requires
        k < p@.len(),
    ensures
        r@ == applying(b@, p@, k as int, b@.len()),
{
    let at: usize = count_shown(p, k);
    let mut out: Vec<usize> = Vec::new();
    for j in 0..b.len()
        invariant
            k < p@.len(),
            at == shown_before(p@, p@[k as int].sheet@, k as nat),
            out@ == applying(b@, p@, k as int, j as nat),
    {
        let here: bool = match b[j].idx {
            IdxPat::Wildcard => true,
            IdxPat::Exact(n) => n as usize == at,
        };
        if here && text::same_str(b[j].sheet.as_str(), p[k].sheet.as_str()) {
            out.push(j);
        }
    }
    out
}

// ---------------------------------------------------------------- what binds tighter

/// A number of an expression.
pub open spec fn is_number(t: Tok) -> bool {
    t is Num
}

pub open spec fn lit(t: Tok) -> Instr {
    Instr::Lit { from: t->Num_from, to: t->Num_to }
}

proof fn lemma_number(s: Seq<char>, t: Seq<Tok>, i: nat)
    requires
        i < t.len(),
        is_number(t[i as int]),
    ensures
        factor(s, t, i) == Ok::<Parsed, BindFault>(
            Parsed { code: seq![lit(t[i as int])], next: i + 1 },
        ),
{
    reveal_with_fuel(factor, 2);
    reveal_with_fuel(primary, 2);
}

proof fn lemma_product_ends(s: Seq<char>, t: Seq<Tok>, code: Seq<Instr>, i: nat)
    requires
        product_op(tok_at(t, i)) is None,
    ensures
        product_rest(s, t, code, i) == Ok::<Parsed, BindFault>(Parsed { code, next: i }),
{
    reveal_with_fuel(product_rest, 2);
}

proof fn lemma_product_goes_on(s: Seq<char>, t: Seq<Tok>, code: Seq<Instr>, i: nat)
    requires
        i + 1 < t.len(),
        product_op(tok_at(t, i)) is Some,
        is_number(t[i as int + 1]),
    ensures
        product_rest(s, t, code, i) == product_rest(
            s,
            t,
            (code + seq![lit(t[i as int + 1])]).push(Instr::Bin(product_op(tok_at(t, i))->0)),
            i + 2,
        ),
{
    reveal_with_fuel(product_rest, 2);
    lemma_number(s, t, i + 1);
}

proof fn lemma_product_begins(s: Seq<char>, t: Seq<Tok>, i: nat)
    requires
        i < t.len(),
        is_number(t[i as int]),
    ensures
        product(s, t, i) == product_rest(s, t, seq![lit(t[i as int])], i + 1),
{
    reveal_with_fuel(product, 2);
    lemma_number(s, t, i);
}

/// Products bind tighter than sums, and operators that bind alike go from left
/// to right: of `x a y b z` the second operator is applied first only where it
/// multiplies, divides or takes a remainder and the first one adds or
/// subtracts.
pub proof fn law_products_bind_tighter_than_sums(s: Seq<char>, t: Seq<Tok>)
    requires
        t.len() == 6,
        is_number(t[0]) && is_number(t[2]) && is_number(t[4]),
        t[5] == Tok::End,
        sum_op(t[1]) is Some || product_op(t[1]) is Some,
        sum_op(t[3]) is Some || product_op(t[3]) is Some,
    ensures
        ({
            let first = if sum_op(t[1]) is Some {
                sum_op(t[1])->0
            } else {
                product_op(t[1])->0
            };
            let second = if sum_op(t[3]) is Some {
                sum_op(t[3])->0
            } else {
                product_op(t[3])->0
            };
            let late = sum_op(t[1]) is Some && product_op(t[3]) is Some;
            expr(s, t, 0) == Ok::<Parsed, BindFault>(
                Parsed {
                    code: if late {
                        seq![
                            lit(t[0]),
                            lit(t[2]),
                            lit(t[4]),
                            Instr::Bin(second),
                            Instr::Bin(first),
                        ]
                    } else {
                        seq![
                            lit(t[0]),
                            lit(t[2]),
                            Instr::Bin(first),
                            lit(t[4]),
                            Instr::Bin(second),
                        ]
                    },
                    next: 5,
                },
            )
        }),
{
    reveal_with_fuel(expr, 2);
    reveal_with_fuel(sum_rest, 4);
    let a = lit(t[0]);
    let b = lit(t[2]);
    let c = lit(t[4]);
    lemma_product_begins(s, t, 0);
    lemma_product_begins(s, t, 2);
    lemma_product_begins(s, t, 4);
    lemma_product_ends(s, t, seq![c], 5);
    if product_op(t[1]) is Some {
        let p = product_op(t[1])->0;
        let one = (seq![a] + seq![b]).push(Instr::Bin(p));
        lemma_product_goes_on(s, t, seq![a], 1);
        assert(one =~= seq![a, b, Instr::Bin(p)]);
        if product_op(t[3]) is Some {
            let q = product_op(t[3])->0;
            lemma_product_goes_on(s, t, one, 3);
            let two = (one + seq![c]).push(Instr::Bin(q));
            lemma_product_ends(s, t, two, 5);
            assert(two =~= seq![a, b, Instr::Bin(p), c, Instr::Bin(q)]);
        } else {
            let q = sum_op(t[3])->0;
            lemma_product_ends(s, t, one, 3);
            assert((one + seq![c]).push(Instr::Bin(q)) =~= seq![
                a,
                b,
                Instr::Bin(p),
                c,
                Instr::Bin(q),
            ]);
        }
    } else {
        let p = sum_op(t[1])->0;
        lemma_product_ends(s, t, seq![a], 1);
        if product_op(t[3]) is Some {
            let q = product_op(t[3])->0;
            lemma_product_goes_on(s, t, seq![b], 3);
            let two = (seq![b] + seq![c]).push(Instr::Bin(q));
            lemma_product_ends(s, t, two, 5);
            assert((seq![a] + two).push(Instr::Bin(p)) =~= seq![
                a,
                b,
                c,
                Instr::Bin(q),
                Instr::Bin(p),
            ]);
        } else {
            let q = sum_op(t[3])->0;
            lemma_product_ends(s, t, seq![b], 3);
            let one = (seq![a] + seq![b]).push(Instr::Bin(p));
            assert((one + seq![c]).push(Instr::Bin(q)) =~= seq![
                a,
                b,
                Instr::Bin(p),
                c,
                Instr::Bin(q),
            ]);
        }
    }
}

/// The signs of arithmetic mean what they do everywhere.
pub proof fn law_operators_are_written_as_usual()
    ensures
        sum_op(Tok::Punct('+')) == Some(Op::Add),
        sum_op(Tok::Punct('-')) == Some(Op::Sub),
        product_op(Tok::Punct('*')) == Some(Op::Mul),
        product_op(Tok::Punct('/')) == Some(Op::Div),
        product_op(Tok::Punct('%')) == Some(Op::Mod),
{
}

/// A binding moves a sprite just where it names its sheet, and either all of
/// the sheet's sprites or this one by its number among them.
pub proof fn law_bindings_move_what_they_address(
    b: Seq<Binding>,
    p: Seq<Placement>,
    k: int,
    n: nat,
    j: int,
)
    requires
        0 <= j < n <= b.len(),
        n <= usize::MAX,
    ensures
        applying(b, p, k, n).contains(j as usize) <==> b[j].sheet@ == p[k].sheet@ && (b[j].idx
            is Wildcard || (b[j].idx is Exact && b[j].idx->Exact_0 == shown_before(
            p,
            p[k].sheet@,
            k as nat,
        ))),
    decreases n,
{
    lemma_applying(b, p, k, n);
    let before = applying(b, p, k, (n - 1) as nat);
    let all = applying(b, p, k, n);
    if j < n - 1 {
        law_bindings_move_what_they_address(b, p, k, (n - 1) as nat, j);
        if before.contains(j as usize) {
            let i = choose|i: int| 0 <= i < before.len() && before[i] == j as usize;
            assert(all[i] == j as usize);
        } else if all.contains(j as usize) {
            let i = choose|i: int| 0 <= i < all.len() && all[i] == j as usize;
            assert(before[i] == j as usize);
        }
    } else {
        lemma_applying(b, p, k, (n - 1) as nat);
        if applies(b[j], p, k) {
            assert(all[before.len() as int] == j as usize);
        }
    }
}

proof fn lemma_applying(b: Seq<Binding>, p: Seq<Placement>, k: int, n: nat)
    requires
        n <= usize::MAX,
    ensures
        forall|i: int|
            0 <= i < applying(b, p, k, n).len() ==> #[trigger] applying(b, p, k, n)[i] < n,
    decreases n,
{
    if n > 0 {
        lemma_applying(b, p, k, (n - 1) as nat);
        let before = applying(b, p, k, (n - 1) as nat);
        let all = applying(b, p, k, n);
        assert forall|i: int| 0 <= i < all.len() implies #[trigger] all[i] < n by {
            if i < before.len() {
                assert(all[i] == before[i]);
            }
        }
    }
}

} // verus!
