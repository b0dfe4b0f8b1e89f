//! The format descriptor: the layout of constant regions and variable
//! windows, the skeleton used for constant-region repair, and the
//! named-group pattern that captures each window.
use vstd::prelude::*;
use crate::text::{push_char, push_decimal, decimal};
use vstd::string::StringExecFns;

verus! {

#[verifier::external_type_specification]
#[verifier::external_body]
pub struct ExRegex(regex::Regex);

#[verifier::external_type_specification]
#[verifier::external_body]
pub struct ExRegexError(regex::Error);

/// One piece of a template: a constant nucleotide run, or a variable window
/// of the given length.
#[derive(Clone, Debug)]
pub enum Segment {
    Constant(String),
    Sample(usize),
    Counted(usize),
    Random(usize),
}

/// Why a layout cannot describe a read.
#[derive(Clone, Copy, Debug, PartialEq, Eq, Structural)]
pub enum FormatError {
    /// A constant run is empty or holds a character other than A, C, G, T.
    BadConstant,
    /// A variable window has length zero.
    EmptyWindow,
    /// No counted window.
    NoCountedWindow,
    /// More than one sample window.
    RepeatedSample,
    /// More than one random window.
    RepeatedRandom,
    /// The pattern was refused by the regular-expression engine.
    Pattern,
    /// The template text holds a character that is neither a nucleotide, a
    /// placeholder nor whitespace.
    BadCharacter,
}

pub open spec fn is_nucleotide(c: char) -> bool {
    c == 'A' || c == 'C' || c == 'G' || c == 'T'
}

pub open spec fn is_window(s: Segment) -> bool {
    !(s is Constant)
}

/// Characters of the skeleton contributed by one segment: the constant
/// itself, or `N` over a window.
pub open spec fn segment_skeleton(s: Segment) -> Seq<char> {
    match s {
        Segment::Constant(t) => t@,
        Segment::Sample(n) => Seq::new(n as nat, |i: int| 'N'),
        Segment::Counted(n) => Seq::new(n as nat, |i: int| 'N'),
        Segment::Random(n) => Seq::new(n as nat, |i: int| 'N'),
    }
}

/// The template with every window position replaced by the wildcard `N`.
pub open spec fn skeleton(segs: Seq<Segment>) -> Seq<char>
    decreases segs.len(),
{
    if segs.len() == 0 {
        Seq::empty()
    } else {
        skeleton(segs.drop_last()) + segment_skeleton(segs.last())
    }
}

pub open spec fn count_windows(segs: Seq<Segment>) -> nat
    decreases segs.len(),
{
    if segs.len() == 0 {
        0
    } else {
        count_windows(segs.drop_last()) + if is_window(segs.last()) { 1nat } else { 0nat }
    }
}

pub open spec fn count_counted(segs: Seq<Segment>) -> nat
    decreases segs.len(),
{
    if segs.len() == 0 {
        0
    } else {
        count_counted(segs.drop_last()) + if segs.last() is Counted { 1nat } else { 0nat }
    }
}

pub open spec fn count_sample(segs: Seq<Segment>) -> nat
    decreases segs.len(),
{
    if segs.len() == 0 {
        0
    } else {
        count_sample(segs.drop_last()) + if segs.last() is Sample { 1nat } else { 0nat }
    }
}

pub open spec fn count_random(segs: Seq<Segment>) -> nat
    decreases segs.len(),
{
    if segs.len() == 0 {
        0
    } else {
        count_random(segs.drop_last()) + if segs.last() is Random { 1nat } else { 0nat }
    }
}

/// `n` copies of the any-character token.
pub open spec fn dots(n: nat) -> Seq<char> {
    Seq::new(n, |i: int| '.')
}

/// A named capture group of `n` characters.
pub open spec fn named_group(name: Seq<char>, n: nat) -> Seq<char> {
    "(?P<"@ + name + ">"@ + dots(n) + ")"@
}

/// The pattern text for one segment; `k` is the number of counted windows
/// before it.
pub open spec fn segment_pattern(s: Segment, k: nat) -> Seq<char> {
    match s {
        Segment::Constant(t) => t@,
        Segment::Sample(n) => named_group("sample"@, n as nat),
        Segment::Counted(n) => named_group("barcode"@ + decimal(k + 1), n as nat),
        Segment::Random(n) => named_group("random"@, n as nat),
    }
}

/// The pattern that captures each window by name.
pub open spec fn pattern(segs: Seq<Segment>) -> Seq<char>
    decreases segs.len(),
{
    if segs.len() == 0 {
        Seq::empty()
    } else {
        pattern(segs.drop_last()) + segment_pattern(segs.last(), count_counted(segs.drop_last()))
    }
}

/// Capture-group numbers of the counted windows, in template order.
pub open spec fn counted_groups(segs: Seq<Segment>) -> Seq<nat>
    decreases segs.len(),
{
    if segs.len() == 0 {
        Seq::empty()
    } else if segs.last() is Counted {
        counted_groups(segs.drop_last()).push(count_windows(segs.drop_last()) + 1)
    } else {
        counted_groups(segs.drop_last())
    }
}

/// Capture-group number of the sample window, if there is one.
pub open spec fn sample_group(segs: Seq<Segment>) -> Option<nat>
    decreases segs.len(),
{
    if segs.len() == 0 {
        None
    } else if segs.last() is Sample {
        Some(count_windows(segs.drop_last()) + 1)
    } else {
        sample_group(segs.drop_last())
    }
}

/// Capture-group number of the random window, if there is one.
pub open spec fn random_group(segs: Seq<Segment>) -> Option<nat>
    decreases segs.len(),
{
    if segs.len() == 0 {
        None
    } else if segs.last() is Random {
        Some(count_windows(segs.drop_last()) + 1)
    } else {
        random_group(segs.drop_last())
    }
}

pub open spec fn valid_constant(t: Seq<char>) -> bool {
    t.len() > 0 && forall|i: int| 0 <= i < t.len() ==> is_nucleotide(#[trigger] t[i])
}

pub open spec fn valid_segment(s: Segment) -> bool {
    match s {
        Segment::Constant(t) => valid_constant(t@),
        Segment::Sample(n) => n > 0,
        Segment::Counted(n) => n > 0,
        Segment::Random(n) => n > 0,
    }
}

/// The first error that the layout check reports, if any.
pub open spec fn layout_error(segs: Seq<Segment>) -> Option<FormatError> {
    if exists|i: int| 0 <= i < segs.len() && (segs[i] is Constant) && !valid_segment(segs[i]) {
        Some(FormatError::BadConstant)
    } else if exists|i: int| 0 <= i < segs.len() && is_window(segs[i]) && !valid_segment(segs[i]) {
        Some(FormatError::EmptyWindow)
    } else if count_counted(segs) == 0 {
        Some(FormatError::NoCountedWindow)
    } else if count_sample(segs) > 1 {
        Some(FormatError::RepeatedSample)
    } else if count_random(segs) > 1 {
        Some(FormatError::RepeatedRandom)
    } else {
        None
    }
}

pub open spec fn is_space(c: char) -> bool {
    c == ' ' || c == '\n' || c == '\t' || c == '\r'
}

/// Template letters: nucleotides, `S` (sample), `B` (counted) and `N`
/// (random).
pub open spec fn is_template_char(c: char) -> bool {
    is_nucleotide(c) || c == 'S' || c == 'B' || c == 'N'
}

/// The template without whitespace.
pub open spec fn clean(t: Seq<char>) -> Seq<char> {
    t.filter(|c: char| !is_space(c))
}

/// The kind of a segment: 0 constant, 1 sample, 2 counted, 3 random.
pub open spec fn kind_code(s: Segment) -> int {
    match s {
        Segment::Constant(_) => 0,
        Segment::Sample(_) => 1,
        Segment::Counted(_) => 2,
        Segment::Random(_) => 3,
    }
}

pub open spec fn char_code(c: char) -> int {
    if c == 'S' { 1 } else if c == 'B' { 2 } else if c == 'N' { 3 } else { 0 }
}

/// A segment written as template letters.
pub open spec fn segment_text(s: Segment) -> Seq<char> {
    match s {
        Segment::Constant(t) => t@,
        Segment::Sample(n) => Seq::new(n as nat, |i: int| 'S'),
        Segment::Counted(n) => Seq::new(n as nat, |i: int| 'B'),
        Segment::Random(n) => Seq::new(n as nat, |i: int| 'N'),
    }
}

/// A layout written as template letters.
pub open spec fn layout_text(segs: Seq<Segment>) -> Seq<char>
    decreases segs.len(),
{
    if segs.len() == 0 {
        Seq::empty()
    } else {
        layout_text(segs.drop_last()) + segment_text(segs.last())
    }
}

/// `segs` splits a template into maximal runs: no segment is empty and no
/// two neighbours are of one kind.
pub open spec fn maximal_runs(segs: Seq<Segment>) -> bool {
    &&& forall|i: int| 0 <= i < segs.len() ==> segment_text(#[trigger] segs[i]).len() > 0
    &&& forall|i: int| 0 <= i < segs.len() - 1 ==> kind_code(#[trigger] segs[i]) != kind_code(segs[i + 1])
}

/// Splits a template into its runs: nucleotides A, C, G, T are constants,
/// a run of `S` is the sample window, each run of `B` a counted window, a
/// run of `N` the random window. Whitespace is skipped.
pub fn parse_template(template: &str) -> (r: Result<Vec<Segment>, FormatError>)
    ensures
        r is Err <==> exists|i: int| 0 <= i < template@.len() && !is_space(template@[i]) && !is_template_char(template@[i]),
        r is Err ==> r == Err::<Vec<Segment>, FormatError>(FormatError::BadCharacter),
        r matches Ok(segs) ==> layout_text(segs@) == clean(template@) && maximal_runs(segs@),
{
    let cs = crate::text::chars_of(template);
    let mut segs: Vec<Segment> = Vec::new();
    let mut run = String::new();
    let mut run_code: u8 = 0;
    let mut run_len: usize = 0;
    let mut i: usize = 0;
    while i < cs.len()
        invariant
            cs@ == template@,
            i <= cs@.len(),
            forall|j: int| 0 <= j < i ==> is_space(template@[j]) || is_template_char(template@[j]),
            layout_text(segs@) + run@ == clean(template@.take(i as int)),
            run@.len() == run_len,
            run_len > 0 ==> forall|j: int| 0 <= j < run@.len() ==> char_code(#[trigger] run@[j]) == run_code as int,
            run_len > 0 ==> forall|j: int| 0 <= j < run@.len() ==> is_template_char(#[trigger] run@[j]),
            run_code <= 3,
            maximal_runs(segs@),
            run_len > 0 && segs@.len() > 0 ==> kind_code(segs@.last()) != run_code as int,
            run_len == 0 ==> segs@.len() == 0,
        decreases cs@.len() - i,
    {
        let ch = cs[i];
        assert(template@.take(i + 1) == template@.take(i as int).push(ch));
        proof {
            template@.take(i as int).lemma_filter_push(ch, |c: char| !is_space(c));
        }
        if ch == ' ' || ch == '\n' || ch == '\t' || ch == '\r' {
            i = i + 1;
            continue;
        }
        if !(ch == 'A' || ch == 'C' || ch == 'G' || ch == 'T' || ch == 'S' || ch == 'B' || ch == 'N') {
            return Err(FormatError::BadCharacter);
        }
        let code: u8 = if ch == 'S' { 1 } else if ch == 'B' { 2 } else if ch == 'N' { 3 } else { 0 };
        if run_len > 0 && code != run_code {
            let ghost before = segs@;
            let seg = make_segment(run, run_code, run_len);
            segs.push(seg);
            proof {
                assert(segs@.drop_last() == before);
                assert(layout_text(segs@) == layout_text(before) + segment_text(seg));
            }
            run = String::new();
            run_len = 0;
        }
        let ghost old_run = run@;
        push_char(&mut run, ch);
        run_code = code;
        run_len = run_len + 1;
        assert(run@ == old_run.push(ch));
        i = i + 1;
    }
    if run_len > 0 {
        let ghost before = segs@;
        let seg = make_segment(run, run_code, run_len);
        segs.push(seg);
        assert(segs@.drop_last() == before);
    } else {
        assert(run@ =~= Seq::<char>::empty());
    }
    assert(template@.take(cs@.len() as int) =~= template@);
    Ok(segs)
}

/// The segment of one run of template letters.
fn make_segment(run: String, code: u8, len: usize) -> (s: Segment)
    requires
        run@.len() == len,
        len > 0,
        code <= 3,
        forall|j: int| 0 <= j < run@.len() ==> char_code(#[trigger] run@[j]) == code as int,
        forall|j: int| 0 <= j < run@.len() ==> is_template_char(#[trigger] run@[j]),
    ensures
        segment_text(s) == run@,
        kind_code(s) == code as int,
{
    if code == 1 {
        let s = Segment::Sample(len);
        assert(segment_text(s) =~= run@);
        s
    } else if code == 2 {
        let s = Segment::Counted(len);
        assert(segment_text(s) =~= run@);
        s
    } else if code == 3 {
        let s = Segment::Random(len);
        assert(segment_text(s) =~= run@);
        s
    } else {
        Segment::Constant(run)
    }
}

/// What the regular-expression engine captures when the pattern is searched
/// for in `text`: `None` without a match, else the text of group 0 (the
/// whole match) and of each capture group in order, `None` for a group that
/// took no part.
pub uninterp spec fn captured_groups(pattern: Seq<char>, text: Seq<char>) -> Option<Seq<Option<Seq<char>>>>;

pub open spec fn opt_view(o: Option<String>) -> Option<Seq<char>> {
    match o {
        Some(s) => Some(s@),
        None => None,
    }
}

pub open spec fn groups_view(r: Option<Vec<Option<String>>>) -> Option<Seq<Option<Seq<char>>>> {
    match r {
        Some(v) => Some(v@.map_values(|o: Option<String>| opt_view(o))),
        None => None,
    }
}

/// Whether the regular-expression engine accepts `p` (valid syntax, within
/// its default size limit).
pub uninterp spec fn pattern_compiles(p: Seq<char>) -> bool;

/// Relies on `regex::Regex::new`: compiles the pattern, or reports why not;
/// which of the two depends on the pattern alone.
#[verifier::external_body]
fn compile_pattern(pattern: &str) -> (r: Result<regex::Regex, regex::Error>)
    ensures
        r is Ok <==> pattern_compiles(pattern@),
{
    regex::Regex::new(pattern)
}

/// An immutable description of where the windows of a read lie.
///
/// `format_regex` is set only by `new`, from `regex_string`, and the fields
/// are private: the wrappers below rely on that.
pub struct SequenceFormat {
    layout: Vec<Segment>,
    format_string: String,
    regex_string: String,
    format_regex: regex::Regex,
    counted: Vec<usize>,
    sample: Option<usize>,
    random: Option<usize>,
    pub barcode_num: usize,
}

impl SequenceFormat {
    pub closed spec fn layout(&self) -> Seq<Segment> {
        self.layout@
    }

    pub closed spec fn counted_groups_spec(&self) -> Seq<usize> {
        self.counted@
    }

    /// The text that the compiled expression was built from.
    pub closed spec fn pattern_text(&self) -> Seq<char> {
        self.regex_string@
    }

    pub closed spec fn wf(&self) -> bool {
        &&& layout_error(self.layout@) is None
        &&& self.format_string@ == skeleton(self.layout@)
        &&& self.regex_string@ == pattern(self.layout@)
        &&& self.counted@.map_values(|g: usize| g as nat) == counted_groups(self.layout@)
        &&& self.sample matches Some(g) ==> sample_group(self.layout@) == Some(g as nat)
        &&& self.sample is None ==> sample_group(self.layout@) is None
        &&& self.random matches Some(g) ==> random_group(self.layout@) == Some(g as nat)
        &&& self.random is None ==> random_group(self.layout@) is None
        &&& self.barcode_num == self.counted@.len()
    }

    /// Checks the layout, then builds its skeleton and pattern and compiles
    /// the pattern. Layout errors are reported before the pattern is built.
    pub fn new(layout: Vec<Segment>) -> (r: Result<SequenceFormat, FormatError>)
        ensures
            r matches Ok(f) ==> f.wf() && f.layout() == layout@,
            r matches Err(e) ==> layout_error(layout@) == Some(e) || (layout_error(layout@) is None
                && e == FormatError::Pattern),
            layout_error(layout@) is Some ==> r == Err::<SequenceFormat, FormatError>(
                layout_error(layout@)->0),
            layout_error(layout@) is None && pattern_compiles(pattern(layout@)) ==> r is Ok,
            layout_error(layout@) is None && !pattern_compiles(pattern(layout@)) ==> r
                == Err::<SequenceFormat, FormatError>(FormatError::Pattern),
    {
        let ghost segs = layout@;
        let mut skel = String::new();
        let mut pat = String::new();
        let mut counted: Vec<usize> = Vec::new();
        let mut sample: Option<usize> = None;
        let mut random: Option<usize> = None;
        let mut n_windows: usize = 0;
        let mut n_counted: usize = 0;
        let mut n_sample: usize = 0;
        let mut n_random: usize = 0;
        let mut bad_constant = false;
        let mut empty_window = false;
        let mut k: usize = 0;
        assert(segs.take(0) =~= Seq::<Segment>::empty());
        while k < layout.len()
            invariant
                segs == layout@,
                k <= segs.len(),
                skel@ == skeleton(segs.take(k as int)),
                pat@ == pattern(segs.take(k as int)),
                n_windows == count_windows(segs.take(k as int)),
                n_counted == count_counted(segs.take(k as int)),
                n_sample == count_sample(segs.take(k as int)),
                n_random == count_random(segs.take(k as int)),
                n_windows <= k,
                n_counted <= k,
                n_sample <= k,
                n_random <= k,
                counted@.map_values(|g: usize| g as nat) == counted_groups(segs.take(k as int)),
                opt_nat(sample) == sample_group(segs.take(k as int)),
                opt_nat(random) == random_group(segs.take(k as int)),
                bad_constant <==> exists|i: int|
                    0 <= i < k && (segs[i] is Constant) && !valid_segment(segs[i]),
                empty_window <==> exists|i: int|
                    0 <= i < k && is_window(segs[i]) && !valid_segment(segs[i]),
            decreases segs.len() - k,
        {
            let ghost prev = segs.take(k as int);
            assert(segs.take(k + 1).drop_last() =~= prev);
            assert(segs.take(k + 1).last() == segs[k as int]);
            let ghost old_counted = counted@;
            match &layout[k] {
                Segment::Constant(t) => {
                    let ok = is_constant_text(t.as_str());
                    if !ok {
                        bad_constant = true;
                    }
                    skel.append(t.as_str());
                    pat.append(t.as_str());
                },
                Segment::Sample(n) => {
                    if *n == 0 {
                        empty_window = true;
                    }
                    push_wildcards(&mut skel, *n);
                    push_group(&mut pat, "sample", *n);
                    n_windows = n_windows + 1;
                    n_sample = n_sample + 1;
                    sample = Some(n_windows);
                },
                Segment::Counted(n) => {
                    if *n == 0 {
                        empty_window = true;
                    }
                    push_wildcards(&mut skel, *n);
                    let mut name = String::new();
                    name.append("barcode");
                    push_decimal(&mut name, n_counted + 1);
                    push_group(&mut pat, name.as_str(), *n);
                    n_windows = n_windows + 1;
                    n_counted = n_counted + 1;
                    counted.push(n_windows);
                    assert(counted@.map_values(|g: usize| g as nat) =~= old_counted.map_values(
                        |g: usize| g as nat,
                    ).push(n_windows as nat));
                },
                Segment::Random(n) => {
                    if *n == 0 {
                        empty_window = true;
                    }
                    push_wildcards(&mut skel, *n);
                    push_group(&mut pat, "random", *n);
                    n_windows = n_windows + 1;
                    n_random = n_random + 1;
                    random = Some(n_windows);
                },
            }
            k = k + 1;
        }
        assert(segs.take(segs.len() as int) =~= segs);
        if bad_constant {
            return Err(FormatError::BadConstant);
        }
        if empty_window {
            return Err(FormatError::EmptyWindow);
        }
        if n_counted == 0 {
            return Err(FormatError::NoCountedWindow);
        }
        if n_sample > 1 {
            return Err(FormatError::RepeatedSample);
        }
        if n_random > 1 {
            return Err(FormatError::RepeatedRandom);
        }
        match compile_pattern(pat.as_str()) {
            Ok(format_regex) => Ok(
                SequenceFormat {
                    layout,
                    format_string: skel,
                    regex_string: pat,
                    format_regex,
                    barcode_num: counted.len(),
                    counted,
                    sample,
                    random,
                },
            ),
            Err(_) => Err(FormatError::Pattern),
        }
    }

    /// The skeleton: constants verbatim, `N` over every window.
    pub fn format_string(&self) -> (r: &str)
        requires
            self.wf(),
        ensures
            r@ == skeleton(self.layout()),
    {
        self.format_string.as_str()
    }

    /// The pattern text that the compiled expression was built from.
    pub fn regex_string(&self) -> (r: &str)
        requires
            self.wf(),
        ensures
            r@ == pattern(self.layout()),
    {
        self.regex_string.as_str()
    }

    pub fn counted_groups(&self) -> (r: &Vec<usize>)
        requires
            self.wf(),
        ensures
            r@.map_values(|g: usize| g as nat) == counted_groups(self.layout()),
            r@ == self.counted_groups_spec(),
    {
        &self.counted
    }

    pub fn sample_group(&self) -> (r: Option<usize>)
        requires
            self.wf(),
        ensures
            opt_nat(r) == sample_group(self.layout()),
    {
        self.sample
    }

    pub fn random_group(&self) -> (r: Option<usize>)
        requires
            self.wf(),
        ensures
            opt_nat(r) == random_group(self.layout()),
    {
        self.random
    }

    /// Relies on `regex::Regex::is_match`: true exactly when the expression,
    /// compiled from `pattern_text`, matches somewhere in `text`.
    #[verifier::external_body]
    pub(crate) fn is_match(&self, text: &str) -> (r: bool)
        ensures
            r == captured_groups(self.pattern_text(), text@) is Some,
    {
        self.format_regex.is_match(text)
    }

    /// Relies on `regex::Regex::captures` and `Captures::iter`: the leftmost
    /// match of the expression compiled from `pattern_text`, group by group.
    #[verifier::external_body]
    pub(crate) fn captures(&self, text: &str) -> (r: Option<Vec<Option<String>>>)
        ensures
            groups_view(r) == captured_groups(self.pattern_text(), text@),
    {
        self.format_regex.captures(text).map(
            |c| c.iter().map(|m| m.map(|m| m.as_str().to_string())).collect(),
        )
    }
}

/// True when `t` is a non-empty run of A, C, G and T.
fn is_constant_text(t: &str) -> (r: bool)
    ensures
        r == valid_constant(t@),
{
    let cs = crate::text::chars_of(t);
    if cs.len() == 0 {
        return false;
    }
    let mut i: usize = 0;
    while i < cs.len()
        invariant
            cs@ == t@,
            i <= cs.len(),
            forall|j: int| 0 <= j < i ==> is_nucleotide(#[trigger] t@[j]),
        decreases cs.len() - i,
    {
        let c = cs[i];
        if !(c == 'A' || c == 'C' || c == 'G' || c == 'T') {
            return false;
        }
        i = i + 1;
    }
    true
}

/// Appends `n` wildcards.
fn push_wildcards(s: &mut String, n: usize)
    ensures
        final(s)@ == old(s)@ + Seq::new(n as nat, |i: int| 'N'),
{
    let mut j: usize = 0;
    while j < n
        invariant
            j <= n,
            s@ == old(s)@ + Seq::new(j as nat, |i: int| 'N'),
        decreases n - j,
    {
        push_char(s, 'N');
        j = j + 1;
        assert(s@ =~= old(s)@ + Seq::new(j as nat, |i: int| 'N'));
    }
}

/// Appends a named group of `n` any-character tokens.
fn push_group(s: &mut String, name: &str, n: usize)
    ensures
        final(s)@ == old(s)@ + named_group(name@, n as nat),
{
    s.append("(?P<");
    s.append(name);
    s.append(">");
    let ghost base = s@;
    let mut j: usize = 0;
    while j < n
        invariant
            j <= n,
            s@ == base + dots(j as nat),
        decreases n - j,
    {
        push_char(s, '.');
        j = j + 1;
        assert(s@ =~= base + dots(j as nat));
    }
    s.append(")");
    assert(s@ =~= old(s)@ + named_group(name@, n as nat));
}

pub open spec fn opt_nat(o: Option<usize>) -> Option<nat> {
    match o {
        Some(g) => Some(g as nat),
        None => None,
    }
}

} // verus!
