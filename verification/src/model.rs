//! Shared data model: theme names, decoded frames and variants, errors.
use std::sync::Arc;
use vstd::prelude::*;

verus! {

/// Errors of every layer; the messages are stable English codes.
#[derive(Debug, PartialEq, Eq)]
pub enum Error {
    Invalid(&'static str),
    Unsupported(&'static str),
    LimitExceeded(&'static str),
    Missing,
    Cancelled,
    Io(String),
}

/// The abstract value of an error: I/O messages as characters.
pub enum ErrorV {
    Invalid(&'static str),
    Unsupported(&'static str),
    LimitExceeded(&'static str),
    Missing,
    Cancelled,
    Io(Seq<char>),
}

impl View for Error {
    type V = ErrorV;

    open spec fn view(&self) -> ErrorV {
        match self {
            Error::Invalid(m) => ErrorV::Invalid(*m),
            Error::Unsupported(m) => ErrorV::Unsupported(*m),
            Error::LimitExceeded(m) => ErrorV::LimitExceeded(*m),
            Error::Missing => ErrorV::Missing,
            Error::Cancelled => ErrorV::Cancelled,
            Error::Io(s) => ErrorV::Io(s@),
        }
    }
}

impl Clone for Error {
    fn clone(&self) -> (r: Self)
        ensures
            r == *self,
    {
        match self {
            Error::Invalid(m) => Error::Invalid(m),
            Error::Unsupported(m) => Error::Unsupported(m),
            Error::LimitExceeded(m) => Error::LimitExceeded(m),
            Error::Missing => Error::Missing,
            Error::Cancelled => Error::Cancelled,
            Error::Io(s) => Error::Io(s.clone()),
        }
    }
}

/// `Arc::clone` on a pixel buffer: the result shares the same buffer, so its
/// value (and view) equals the argument's.
#[verifier::external_body]
pub(crate) fn share_pixels(a: &Arc<Vec<u8>>) -> (r: Arc<Vec<u8>>)
    ensures
        r == *a,
{
    Arc::clone(a)
}

/// A cancellation callback that never reports cancellation.
pub open spec fn never_cancels<F: Fn() -> bool>(cancel: &F) -> bool {
    forall|c: bool| #[trigger] cancel.ensures((), c) ==> !c
}

/// A cancellation callback that always reports cancellation.
pub open spec fn always_cancels<F: Fn() -> bool>(cancel: &F) -> bool {
    forall|c: bool| #[trigger] cancel.ensures((), c) ==> c
}

/// The characters that a theme or role name may not contain.
pub open spec fn forbidden_name_char(c: char) -> bool {
    c == '/' || c == '\\' || c == '\0'
}

/// A name usable as one path component: not empty, not `.` or `..`,
/// without a slash, backslash or NUL.
pub open spec fn valid_theme_name(s: Seq<char>) -> bool {
    &&& s.len() != 0
    &&& s != seq!['.']
    &&& s != seq!['.', '.']
    &&& forall|i: int| 0 <= i < s.len() ==> !forbidden_name_char(#[trigger] s[i])
}

#[derive(Debug, PartialEq, Eq)]
pub struct ThemeName(String);

impl View for ThemeName {
    type V = Seq<char>;

    closed spec fn view(&self) -> Seq<char> {
        self.0@
    }
}

impl Clone for ThemeName {
    fn clone(&self) -> (r: Self)
        ensures
            r@ == self@,
    {
        proof {
            use_type_invariant(self);
        }
        ThemeName(self.0.clone())
    }
}

/// Whether the characters of `s` form a valid theme name.
pub fn is_valid_name(s: &str) -> (r: bool)
    ensures
        r == valid_theme_name(s@),
{
    let mut n: u8 = 0;
    let mut only_dots = true;
    let mut ok = true;
    for c in it: s.chars()
        invariant
            n == (if it.index() < 3 { it.index() } else { 3 }),
            it.seq() == s@,
            only_dots <==> (forall|i: int| 0 <= i < it.index() ==> #[trigger] s@[i] == '.'),
            ok <==> (forall|i: int| 0 <= i < it.index() ==> !forbidden_name_char(#[trigger] s@[i])),
    {
        if c != '.' {
            only_dots = false;
        }
        if c == '/' || c == '\\' || c == '\0' {
            ok = false;
        }
        if n < 3 {
            n = n + 1;
        }
    }
    proof {
        if only_dots && n == 1 {
            assert(s@ =~= seq!['.']);
        }
        if only_dots && n == 2 {
            assert(s@ =~= seq!['.', '.']);
        }
        if n == 1 && s@ == seq!['.'] {
            assert(s@[0] == '.');
        }
        if n == 2 && s@ == seq!['.', '.'] {
            assert(s@[0] == '.' && s@[1] == '.');
        }
    }
    n != 0 && !(only_dots && (n == 1 || n == 2)) && ok
}

impl ThemeName {
    /// Accepts exactly the names that `valid_theme_name` describes.
    pub fn new(s: &str) -> (r: Result<Self, Error>)
        ensures
            r is Ok <==> valid_theme_name(s@),
            r matches Ok(t) ==> t@ == s@,
            r matches Err(e) ==> e == Error::Invalid("invalid theme/role name"),
    {
        if !is_valid_name(s) {
            return Err(Error::Invalid("invalid theme/role name"));
        }
        Ok(ThemeName(s.to_owned()))
    }

    pub fn as_str(&self) -> (r: &str)
        ensures
            r@ == self@,
    {
        self.0.as_str()
    }

    #[verifier::type_invariant]
    spec fn well_formed(self) -> bool {
        valid_theme_name(self.0@)
    }
}


/// Where a theme was found: a directory, its search-path priority and its
/// declared parents.
pub struct Location {
    pub directory: String,
    pub priority: usize,
    pub inherits: Vec<ThemeName>,
}

/// A discovered theme with its role files and classification.
pub struct Theme {
    pub name: ThemeName,
    pub display: String,
    pub locations: Vec<Location>,
    pub roles: Vec<String>,
    pub verified_roles: Vec<String>,
    pub availability: Availability,
    pub issues: Vec<String>,
}

/// Evidence about this theme without the automatic default-theme fallback.
pub enum Availability {
    Direct { role: String, source: String },
    Inherited { role: String, source: String, chain: Vec<String> },
    NoCursorSource,
    Invalid(String),
    Unverified(String),
}

impl Availability {
    /// Usable evidence is a direct or inherited cursor source.
    pub fn usable(&self) -> (r: bool)
        ensures
            r == (self is Direct || self is Inherited),
    {
        match self {
            Availability::Direct { .. } | Availability::Inherited { .. } => true,
            _ => false,
        }
    }

    /// The role whose file proved usability, if any.
    pub fn role(&self) -> (r: Option<&str>)
        ensures
            r is Some <==> (self is Direct || self is Inherited),
            self matches Availability::Direct { role, .. } ==> r.unwrap()@ == role@,
            self matches Availability::Inherited { role, .. } ==> r.unwrap()@ == role@,
    {
        match self {
            Availability::Direct { role, .. } => Some(role.as_str()),
            Availability::Inherited { role, .. } => Some(role.as_str()),
            _ => None,
        }
    }

    /// A short English label for the availability kind.
    pub fn label(&self) -> (r: &'static str)
        ensures
            r == spec_availability_label(*self),
    {
        match self {
            Availability::Direct { .. } => "Installed",
            Availability::Inherited { .. } => "Inherited",
            Availability::NoCursorSource => "No cursor source",
            Availability::Invalid(_) => "Invalid",
            Availability::Unverified(_) => "Unverified",
        }
    }
}

pub open spec fn spec_availability_label(a: Availability) -> &'static str {
    match a {
        Availability::Direct { .. } => "Installed",
        Availability::Inherited { .. } => "Inherited",
        Availability::NoCursorSource => "No cursor source",
        Availability::Invalid(_) => "Invalid",
        Availability::Unverified(_) => "Unverified",
    }
}

/// The abstract value of a frame: geometry, hotspot, delay and
/// premultiplied RGBA bytes.
pub struct FrameV {
    pub width: u32,
    pub height: u32,
    pub hotspot: (u32, u32),
    pub delay: u32,
    pub rgba: Seq<u8>,
}

/// One animation frame; `rgba` is premultiplied RGBA, shared between copies.
#[derive(Debug)]
pub struct Frame {
    pub width: u32,
    pub height: u32,
    pub hotspot: (u32, u32),
    pub delay: u32,
    pub rgba: Arc<Vec<u8>>,
}

impl View for Frame {
    type V = FrameV;

    open spec fn view(&self) -> FrameV {
        FrameV {
            width: self.width,
            height: self.height,
            hotspot: self.hotspot,
            delay: self.delay,
            rgba: self.rgba@,
        }
    }
}

impl Clone for Frame {
    fn clone(&self) -> (r: Self)
        ensures
            r == *self,
    {
        Frame {
            width: self.width,
            height: self.height,
            hotspot: self.hotspot,
            delay: self.delay,
            rgba: share_pixels(&self.rgba),
        }
    }
}

/// Delay in milliseconds used for playback: the stored delay clamped to 16..=10000.
pub open spec fn spec_playback_delay(delay: u32) -> nat {
    if delay < 16 {
        16
    } else if delay > 10_000 {
        10_000
    } else {
        delay as nat
    }
}

impl Frame {
    /// The stored delay clamped to the playable range 16..=10000 ms.
    pub fn playback_delay(&self) -> (r: u64)
        ensures
            r == spec_playback_delay(self.delay),
            16 <= r <= 10_000,
    {
        if self.delay < 16 {
            16
        } else if self.delay > 10_000 {
            10_000
        } else {
            self.delay as u64
        }
    }
}

/// The abstract value of a variant: its nominal size and frames in order.
pub struct VariantV {
    pub nominal: u32,
    pub frames: Seq<FrameV>,
}

/// All frames of one nominal cursor size.
#[derive(Debug)]
pub struct Variant {
    pub nominal: u32,
    pub frames: Vec<Frame>,
}

impl View for Variant {
    type V = VariantV;

    open spec fn view(&self) -> VariantV {
        VariantV { nominal: self.nominal, frames: frames_view(self.frames@) }
    }
}

pub open spec fn frames_view(fs: Seq<Frame>) -> Seq<FrameV> {
    fs.map_values(|f: Frame| f@)
}

pub open spec fn variants_view(vs: Seq<Variant>) -> Seq<VariantV> {
    vs.map_values(|v: Variant| v@)
}

/// Copies the frame list; every copy shares the pixel buffers of the original.
pub fn clone_frames(fs: &Vec<Frame>) -> (r: Vec<Frame>)
    ensures
        r@ == fs@,
{
    let mut out: Vec<Frame> = Vec::new();
    for i in 0..fs.len()
        invariant
            out@ == fs@.take(i as int),
    {
        out.push(fs[i].clone());
        assert(out@ =~= fs@.take(i + 1));
    }
    assert(fs@.take(fs.len() as int) =~= fs@);
    out
}

impl Clone for Variant {
    fn clone(&self) -> (r: Self)
        ensures
            r.nominal == self.nominal,
            r.frames@ == self.frames@,
    {
        Variant { nominal: self.nominal, frames: clone_frames(&self.frames) }
    }
}

/// Sum of the playback delays of `fs`.
pub open spec fn spec_total_delay(fs: Seq<FrameV>) -> nat
    decreases fs.len(),
{
    if fs.len() == 0 {
        0
    } else {
        spec_total_delay(fs.drop_last()) + spec_playback_delay(fs.last().delay)
    }
}

/// The index of the frame shown `t` milliseconds into one pass of `fs`,
/// or `None` when `t` lies at or past the end of the pass.
pub open spec fn spec_find_frame(fs: Seq<FrameV>, t: int) -> Option<nat>
    decreases fs.len(),
{
    if fs.len() == 0 {
        None
    } else if t < spec_playback_delay(fs[0].delay) {
        Some(0)
    } else {
        match spec_find_frame(fs.drop_first(), t - spec_playback_delay(fs[0].delay)) {
            Some(i) => Some(i + 1),
            None => None,
        }
    }
}

/// The frame index shown after `elapsed` ms of looped playback.
pub open spec fn spec_frame_at(fs: Seq<FrameV>, elapsed: int) -> nat {
    let total = spec_total_delay(fs);
    let t = if total == 0 { 0 } else { elapsed % (total as int) };
    match spec_find_frame(fs, t) {
        Some(i) => i,
        None => 0,
    }
}

pub proof fn lemma_total_first(fs: Seq<FrameV>)
    requires
        fs.len() > 0,
    ensures
        spec_total_delay(fs) == spec_playback_delay(fs[0].delay) + spec_total_delay(fs.drop_first()),
    decreases fs.len(),
{
    if fs.len() == 1 {
        assert(fs.drop_last().len() == 0);
        assert(fs.drop_first().len() == 0);
        assert(spec_total_delay(fs.drop_last()) == 0);
        assert(spec_total_delay(fs.drop_first()) == 0);
        assert(fs.last() == fs[0]);
    } else {
        lemma_total_first(fs.drop_last());
        assert(fs.drop_last().drop_first() =~= fs.drop_first().drop_last());
        assert(fs.drop_first().last() == fs.last());
        assert(fs.drop_last()[0] == fs[0]);
        assert(spec_total_delay(fs.drop_first()) == spec_total_delay(fs.drop_first().drop_last())
            + spec_playback_delay(fs.drop_first().last().delay));
    }
}

/// Within one pass every time instant selects an existing frame.
pub proof fn lemma_find_within_total(fs: Seq<FrameV>, t: int)
    requires
        0 <= t < spec_total_delay(fs),
    ensures
        spec_find_frame(fs, t) matches Some(i) && i < fs.len(),
    decreases fs.len(),
{
    if fs.len() == 0 {
    } else {
        lemma_total_first(fs);
        if t >= spec_playback_delay(fs[0].delay) {
            lemma_find_within_total(fs.drop_first(), t - spec_playback_delay(fs[0].delay));
        }
    }
}

/// Playback loops: one full pass later the same frame is shown.
pub proof fn law_playback_loops(fs: Seq<FrameV>, t: int)
    requires
        t >= 0,
    ensures
        spec_frame_at(fs, t + spec_total_delay(fs)) == spec_frame_at(fs, t),
{
    let total = spec_total_delay(fs);
    if total > 0 {
        vstd::arithmetic::div_mod::lemma_mod_add_multiples_vanish(t, total as int);
        assert(t + total == total + t);
    }
}

impl Variant {
    /// The frame shown after `elapsed` ms of looped playback, using the
    /// clamped playback delays; `0` for an empty animation.
    pub fn frame_at(&self, elapsed: u64) -> (r: usize)
        requires
            spec_total_delay(frames_view(self.frames@)) <= u64::MAX,
        ensures
            r == spec_frame_at(frames_view(self.frames@), elapsed as int),
            self.frames.len() > 0 ==> r < self.frames.len(),
            self.frames.len() == 0 ==> r == 0,
    {
        let ghost fv = frames_view(self.frames@);
        let mut total: u64 = 0;
        for i in 0..self.frames.len()
            invariant
                fv == frames_view(self.frames@),
                spec_total_delay(fv) <= u64::MAX,
                total == spec_total_delay(fv.take(i as int)),
        {
            proof {
                assert(fv.take(i + 1).drop_last() =~= fv.take(i as int));
                lemma_total_prefix_le(fv, i + 1);
            }
            total = total + self.frames[i].playback_delay();
        }
        assert(fv.take(self.frames.len() as int) =~= fv);
        let mut t: u64 = if total == 0 { 0 } else { elapsed % total };
        let ghost t0 = t as int;
        for i in 0..self.frames.len()
            invariant
                fv == frames_view(self.frames@),
                total == spec_total_delay(fv),
                t0 == (if total == 0 { 0 } else { elapsed as int % (total as int) }),
                total > 0 ==> t0 < total,
                spec_find_frame(fv, t0) == match spec_find_frame(fv.skip(i as int), t as int) {
                    Some(k) => Some((k + i) as nat),
                    None => None::<nat>,
                },
        {
            let d = self.frames[i].playback_delay();
            proof {
                assert(fv.skip(i as int)[0] == fv[i as int]);
                assert(fv.skip(i as int).drop_first() =~= fv.skip(i + 1));
            }
            if t < d {
                proof {
                    if total > 0 {
                        lemma_find_within_total(fv, t0);
                    }
                }
                return i;
            }
            t = t - d;
        }
        proof {
            assert(fv.skip(self.frames.len() as int).len() == 0);
            if self.frames.len() > 0 {
                assert(total > 0) by {
                    lemma_total_first(fv);
                }
                lemma_find_within_total(fv, t0);
            }
        }
        0
    }
}

/// Prefix sums never exceed the full sum.
pub proof fn lemma_total_prefix_le(fs: Seq<FrameV>, n: int)
    requires
        0 <= n <= fs.len(),
    ensures
        spec_total_delay(fs.take(n)) <= spec_total_delay(fs),
    decreases fs.len() - n,
{
    if n < fs.len() {
        lemma_total_prefix_le(fs, n + 1);
        assert(fs.take(n + 1).drop_last() =~= fs.take(n));
    } else {
        assert(fs.take(n) =~= fs);
    }
}

/// How a previewed role file was found.
#[derive(Clone, Copy, Debug, PartialEq, Eq, Structural)]
pub enum Resolution {
    Direct,
    Inherited,
    Fallback,
}

/// A decoded role file of a theme together with its provenance.
#[derive(Debug)]
pub struct Preview {
    pub requested: ThemeName,
    pub role: String,
    pub source: String,
    pub chain: Vec<String>,
    pub resolution: Resolution,
    pub variants: Vec<Variant>,
}

/// Copies a list of variants; frames keep sharing their pixel buffers.
pub fn clone_variants(vs: &Vec<Variant>) -> (r: Vec<Variant>)
    ensures
        variants_view(r@) == variants_view(vs@),
        r@.len() == vs@.len(),
{
    let mut out: Vec<Variant> = Vec::new();
    for i in 0..vs.len()
        invariant
            out@.len() == i,
            forall|j: int| 0 <= j < i ==> #[trigger] out@[j]@ == vs@[j]@,
    {
        out.push(vs[i].clone());
    }
    assert(variants_view(out@) =~= variants_view(vs@));
    out
}

/// Copies a list of strings.
pub fn clone_strings(vs: &Vec<String>) -> (r: Vec<String>)
    ensures
        r@ == vs@,
{
    let mut out: Vec<String> = Vec::new();
    for i in 0..vs.len()
        invariant
            out@ == vs@.take(i as int),
    {
        out.push(vs[i].clone());
        assert(out@ =~= vs@.take(i + 1));
    }
    assert(vs@.take(vs.len() as int) =~= vs@);
    out
}

impl Clone for Preview {
    fn clone(&self) -> (r: Self)
        ensures
            r.requested@ == self.requested@,
            r.role@ == self.role@,
            r.source@ == self.source@,
            r.chain@ == self.chain@,
            r.resolution == self.resolution,
            variants_view(r.variants@) == variants_view(self.variants@),
    {
        Preview {
            requested: self.requested.clone(),
            role: self.role.clone(),
            source: self.source.clone(),
            chain: clone_strings(&self.chain),
            resolution: self.resolution,
            variants: clone_variants(&self.variants),
        }
    }
}

} // verus!
