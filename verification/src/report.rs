//! Benchmark identifiers, their titles and directory names, and the text that
//! the command-line reports write.
use vstd::prelude::*;
use crate::number_syntax::{is_float_literal, parses_as_float};
use crate::path::{DirView, DirectoryName, is_normal_name};
use crate::text::{
    byte_len, char_width, chars_of, decimal, fit_prefix, keep_within, lemma_decimal_digits,
    lemma_decimal_injective, lemma_injective_count, lemma_keep_within_props, push_decimal,
    string_from_chars, string_from_prefix,
};
use crate::path::{kept_segments, is_dot};
use crate::color::{
    bold_text, faint_text, green_text, paint_bold, paint_faint, paint_green, paint_red,
    paint_yellow, red_text, yellow_text,
};
use crate::format::{iter_count, iter_count_text};

verus! {

/// Longest directory name, in bytes, that a benchmark gets.
pub const MAX_DIRECTORY_NAME_LEN: usize = 64;

/// Longest title, in bytes, before it is cut and marked with `...`.
pub const MAX_TITLE_LEN: usize = 100;

/// Characters that cannot stand in a file name on some platform.
pub open spec fn is_unsafe_char(c: char) -> bool {
    c == '?' || c == '"' || c == '/' || c == '\\' || c == '*' || c == '<' || c == '>' || c == ':'
        || c == '|' || c == '^'
}

/// Each unsafe character replaced by `_`.
pub open spec fn replace_unsafe(s: Seq<char>) -> Seq<char> {
    s.map_values(|c: char| if is_unsafe_char(c) { '_' } else { c })
}

/// The file-name-safe form of `s`: unsafe characters replaced, then cut to the
/// longest prefix of at most `MAX_DIRECTORY_NAME_LEN` bytes.
pub open spec fn filename_safe(s: Seq<char>) -> Seq<char> {
    keep_within(replace_unsafe(s), MAX_DIRECTORY_NAME_LEN as nat)
}

/// A name that is already safe stays as it is: making a name safe twice
/// gives what making it safe once gave.
pub proof fn lemma_filename_safe_idempotent(s: Seq<char>)
    ensures
        filename_safe(filename_safe(s)) == filename_safe(s),
{
    let t = filename_safe(s);
    let r = replace_unsafe(s);
    lemma_keep_within_props(r, MAX_DIRECTORY_NAME_LEN as nat);
    assert(replace_unsafe(t) =~= t) by {
        assert forall|i: int| 0 <= i < t.len() implies !is_unsafe_char(#[trigger] t[i]) by {
            assert(t[i] == r[i]);
        }
    }
    lemma_keep_within_props(t, MAX_DIRECTORY_NAME_LEN as nat);
}

/// Cuts `s` to the longest prefix of whole characters that fits in `max_len`
/// bytes.
fn truncate_to_character_boundary(s: &mut String, max_len: usize)
    ensures
        final(s)@ == keep_within(old(s)@, max_len as nat),
{
    let cs = chars_of(s.as_str());
    let k = fit_prefix(&cs, max_len);
    *s = string_from_prefix(&cs, k);
}

/// Replaces the characters that are unsafe in file names with `_` and cuts the
/// result to at most `MAX_DIRECTORY_NAME_LEN` bytes, at a character boundary.
pub fn make_filename_safe(string: &str) -> (r: String)
    ensures
        r@ == filename_safe(string@),
        byte_len(r@) <= MAX_DIRECTORY_NAME_LEN,
        r@.len() <= string@.len(),
        forall|i: int| 0 <= i < r@.len() ==> !is_unsafe_char(#[trigger] r@[i]),
        forall|i: int| 0 <= i < r@.len() ==> r@[i] == (if is_unsafe_char(string@[i]) {
            '_'
        } else {
            string@[i]
        }),
        !r@.contains('/'),
{
    let cs = chars_of(string);
    let mut replaced: Vec<char> = Vec::new();
    let mut i: usize = 0;
    while i < cs.len()
        invariant
            i <= cs.len(),
            cs@ == string@,
            replaced@ == replace_unsafe(cs@.take(i as int)),
        decreases cs.len() - i,
    {
        let c = cs[i];
        let unsafe_char = c == '?' || c == '"' || c == '/' || c == '\\' || c == '*' || c == '<'
            || c == '>' || c == ':' || c == '|' || c == '^';
        if unsafe_char {
            replaced.push('_');
        } else {
            replaced.push(c);
        }
        i = i + 1;
        assert(replaced@ =~= replace_unsafe(cs@.take(i as int)));
    }
    assert(cs@.take(cs.len() as int) =~= cs@);
    let mut r = string_from_chars(replaced.as_slice());
    truncate_to_character_boundary(&mut r, MAX_DIRECTORY_NAME_LEN);
    proof {
        lemma_keep_within_props(replace_unsafe(string@), MAX_DIRECTORY_NAME_LEN as nat);
        assert(!r@.contains('/')) by {
            if r@.contains('/') {
                let j = choose|j: int| 0 <= j < r@.len() && r@[j] == '/';
                assert(replace_unsafe(string@)[j] == '/');
            }
        }
    }
    r
}

/// How much a benchmark processes per iteration.
#[derive(Debug, Clone, Copy, PartialEq, Eq, Hash)]
pub enum Throughput {
    Bytes(u64),
    BytesDecimal(u64),
    Elements(u64),
}

/// Where a change lies with respect to the noise threshold: wholly below it,
/// wholly above it, or neither.
pub enum ComparisonResult {
    Improved,
    Regressed,
    NonSignificant,
}

/// What kind of value a benchmark's parameter is.
#[derive(Debug, Clone, Copy, PartialEq, Eq, Structural)]
pub enum ValueType {
    Bytes,
    Elements,
    Value,
}

pub open spec fn opt_text(o: Option<String>) -> Option<Seq<char>> {
    match o {
        Some(s) => Some(s@),
        None => None,
    }
}

/// `group/function/value`, leaving out the parts that are absent.
pub open spec fn full_id_text(
    group: Seq<char>,
    function: Option<Seq<char>>,
    value: Option<Seq<char>>,
) -> Seq<char> {
    match (function, value) {
        (Some(f), Some(v)) => group + seq!['/'] + f + seq!['/'] + v,
        (Some(f), None) => group + seq!['/'] + f,
        (None, Some(v)) => group + seq!['/'] + v,
        (None, None) => group,
    }
}

pub open spec fn ellipsis() -> Seq<char> {
    seq!['.', '.', '.']
}

/// The full id when it fits in `MAX_TITLE_LEN` bytes; otherwise its longest
/// prefix that does, followed by `...`.
pub open spec fn title_text(full: Seq<char>) -> Seq<char> {
    if byte_len(full) <= MAX_TITLE_LEN {
        full
    } else {
        keep_within(full, MAX_TITLE_LEN as nat) + ellipsis()
    }
}

/// The directory `safe(group)/safe(function)/safe(value)`, leaving out the parts
/// that are absent.
pub open spec fn directory_view(
    group: Seq<char>,
    function: Option<Seq<char>>,
    value: Option<Seq<char>>,
) -> DirView {
    let d0 = DirView { segments: Seq::empty(), trailing_sep: false }.pushed(filename_safe(group));
    let d1 = match function {
        Some(f) => d0.pushed(filename_safe(f)),
        None => d0,
    };
    match value {
        Some(v) => d1.pushed(filename_safe(v)),
        None => d1,
    }
}

/// The title with ` #counter` appended.
pub open spec fn numbered_title(title: Seq<char>, counter: nat) -> Seq<char> {
    title + seq![' ', '#'] + decimal(counter)
}

/// The file name with `_counter` appended.
pub open spec fn numbered_name(name: Seq<char>, counter: nat) -> Seq<char> {
    name + seq!['_'] + decimal(counter)
}

/// The directory with its file name suffixed by `_counter`.
pub open spec fn numbered_directory(dir: DirView, counter: nat) -> DirView {
    dir.with_file_name(numbered_name(dir.file_name().unwrap(), counter))
}

/// `counter` is the first number from 2 on whose numbered title is free.
pub open spec fn first_free_title_counter(existing: Seq<String>, title: Seq<char>, counter: nat) -> bool {
    &&& counter >= 2
    &&& !title_taken(existing, numbered_title(title, counter))
    &&& forall|j: nat| 2 <= j < counter ==> title_taken(existing, #[trigger] numbered_title(title, j))
}

/// `counter` is the first number from 2 on whose numbered directory is free.
pub open spec fn first_free_directory_counter(
    existing: Seq<DirectoryName>,
    dir: DirView,
    counter: nat,
) -> bool {
    &&& counter >= 2
    &&& !directory_taken(existing, numbered_directory(dir, counter))
    &&& forall|j: nat|
        2 <= j < counter ==> directory_taken(existing, #[trigger] numbered_directory(dir, j))
}

pub open spec fn title_taken(existing: Seq<String>, title: Seq<char>) -> bool {
    exists|i: int| 0 <= i < existing.len() && #[trigger] existing[i]@ == title
}

pub open spec fn directory_taken(existing: Seq<DirectoryName>, dir: DirView) -> bool {
    exists|i: int| 0 <= i < existing.len() && #[trigger] existing[i]@.same_path(dir)
}

proof fn lemma_suffix_injective(prefix: Seq<char>, a: nat, b: nat)
    requires
        prefix + decimal(a) == prefix + decimal(b),
    ensures
        a == b,
{
    assert(decimal(a) =~= (prefix + decimal(a)).skip(prefix.len() as int));
    assert(decimal(b) =~= (prefix + decimal(b)).skip(prefix.len() as int));
    lemma_decimal_injective(a, b);
}

pub proof fn lemma_numbered_title_injective(title: Seq<char>, a: nat, b: nat)
    requires
        numbered_title(title, a) == numbered_title(title, b),
    ensures
        a == b,
{
    lemma_suffix_injective(title + seq![' ', '#'], a, b);
}

pub proof fn lemma_numbered_name_normal(name: Seq<char>, counter: nat)
    requires
        name.len() > 0,
        !name.contains('/'),
    ensures
        is_normal_name(numbered_name(name, counter)),
{
    let n = numbered_name(name, counter);
    lemma_decimal_digits(counter);
    assert(n.len() >= 3);
    assert forall|i: int| 0 <= i < n.len() implies n[i] != '/' by {
        if i < name.len() {
            assert(n[i] == name[i]);
        } else if i > name.len() {
            assert(n[i] == decimal(counter)[i - name.len() - 1]);
        }
    }
}

/// The components of a numbered directory end with the numbered name.
proof fn lemma_numbered_directory_kept(dir: DirView, counter: nat)
    requires
        dir.file_name() matches Some(n) && n.len() > 0 && !n.contains('/'),
    ensures
        kept_segments(numbered_directory(dir, counter).segments).last() == numbered_name(
            dir.file_name().unwrap(),
            counter,
        ),
{
    let name = numbered_name(dir.file_name().unwrap(), counter);
    lemma_numbered_name_normal(dir.file_name().unwrap(), counter);
    let segs = numbered_directory(dir, counter).segments;
    assert(segs.drop_last().push(name) =~= segs);
    assert(!is_dot(name));
}

pub proof fn lemma_numbered_directory_injective(dir: DirView, a: nat, b: nat)
    requires
        dir.file_name() matches Some(n) && n.len() > 0 && !n.contains('/'),
        numbered_directory(dir, a).same_path(numbered_directory(dir, b)),
    ensures
        a == b,
{
    lemma_numbered_directory_kept(dir, a);
    lemma_numbered_directory_kept(dir, b);
    lemma_suffix_injective(dir.file_name().unwrap() + seq!['_'], a, b);
}

proof fn lemma_keep_within_nonempty(s: Seq<char>, max: nat)
    requires
        s.len() > 0,
        char_width(s[0]) <= max,
    ensures
        keep_within(s, max).len() > 0,
    decreases s.len(),
{
    if !(byte_len(s) <= max) {
        if s.len() == 1 {
            assert(s.drop_last().len() == 0);
            assert(byte_len(s.drop_last()) == 0);
            assert(s.last() == s[0]);
        } else {
            assert(s.drop_last()[0] == s[0]);
            lemma_keep_within_nonempty(s.drop_last(), max);
        }
    }
}

/// A name that is not empty keeps at least one character when made safe.
pub proof fn lemma_filename_safe_nonempty(v: Seq<char>)
    requires
        v.len() > 0,
    ensures
        filename_safe(v).len() > 0,
{
    let r = replace_unsafe(v);
    assert(r.len() > 0);
    assert(char_width(r[0]) <= 4);
    lemma_keep_within_nonempty(r, MAX_DIRECTORY_NAME_LEN as nat);
}

/// A benchmark with a value keeps its reports in a directory whose last
/// component is the file-name-safe form of that value, whether or not it has
/// a function; so two ids that differ only in values whose safe forms differ
/// get different directories.
pub proof fn lemma_directory_ends_with_value(
    group: Seq<char>,
    function: Option<Seq<char>>,
    v: Seq<char>,
    w: Seq<char>,
)
    requires
        v.len() > 0,
    ensures
        directory_view(group, function, Some(v)).segments.len() > 0,
        directory_view(group, function, Some(v)).segments.last() == filename_safe(v),
        w.len() > 0 && filename_safe(v) != filename_safe(w) ==> directory_view(
            group,
            function,
            Some(v),
        ).segments != directory_view(group, function, Some(w)).segments,
{
    lemma_filename_safe_nonempty(v);
    if w.len() > 0 {
        lemma_filename_safe_nonempty(w);
    }
}

/// Whether `title` is one of `existing`.
fn title_in(existing: &[String], title: &String) -> (r: bool)
    ensures
        r == title_taken(existing@, title@),
{
    let mut i: usize = 0;
    while i < existing.len()
        invariant
            i <= existing.len(),
            forall|j: int| 0 <= j < i ==> existing@[j]@ != title@,
        decreases existing.len() - i,
    {
        if existing[i] == *title {
            return true;
        }
        i = i + 1;
    }
    false
}

/// Whether a path equal to `dir` is one of `existing`.
fn directory_in(existing: &[DirectoryName], dir: &DirectoryName) -> (r: bool)
    ensures
        r == directory_taken(existing@, dir@),
{
    let mut i: usize = 0;
    while i < existing.len()
        invariant
            i <= existing.len(),
            forall|j: int| 0 <= j < i ==> !(#[trigger] existing@[j])@.same_path(dir@),
        decreases existing.len() - i,
    {
        if existing[i].same_path(dir) {
            return true;
        }
        i = i + 1;
    }
    false
}

/// A present string in double quotes, or `None`.
pub open spec fn optional_text(o: Option<Seq<char>>) -> Seq<char> {
    match o {
        Some(s) => "\""@ + s + "\""@,
        None => "None"@,
    }
}

/// What `Debug` shows of an optional throughput.
pub open spec fn throughput_debug(t: Option<Throughput>) -> Seq<char> {
    match t {
        None => "None"@,
        Some(Throughput::Bytes(n)) => "Some(Bytes("@ + decimal(n as nat) + "))"@,
        Some(Throughput::BytesDecimal(n)) => "Some(BytesDecimal("@ + decimal(n as nat) + "))"@,
        Some(Throughput::Elements(n)) => "Some(Elements("@ + decimal(n as nat) + "))"@,
    }
}

fn format_opt(opt: &Option<String>) -> (r: String)
    ensures
        r@ == optional_text(opt_text(*opt)),
{
    match opt {
        Some(string) => {
            let mut r = String::new();
            r.push_str("\"");
            r.push_str(string.as_str());
            r.push_str("\"");
            r
        },
        None => "None".to_owned(),
    }
}

fn debug_throughput(t: &Option<Throughput>) -> (r: String)
    ensures
        r@ == throughput_debug(*t),
{
    let mut r = String::new();
    match t {
        None => r.push_str("None"),
        Some(Throughput::Bytes(n)) => {
            r.push_str("Some(Bytes(");
            push_decimal(&mut r, *n);
            r.push_str("))");
        },
        Some(Throughput::BytesDecimal(n)) => {
            r.push_str("Some(BytesDecimal(");
            push_decimal(&mut r, *n);
            r.push_str("))");
        },
        Some(Throughput::Elements(n)) => {
            r.push_str("Some(Elements(");
            push_decimal(&mut r, *n);
            r.push_str("))");
        },
    }
    r
}

/// The identity of one benchmark: its group, function and parameter, with the
/// title and directory name derived from them.
#[derive(Clone, PartialEq, Eq)]
pub struct BenchmarkId {
    pub group_id: String,
    pub function_id: Option<String>,
    pub value_str: Option<String>,
    pub throughput: Option<Throughput>,
    full_id: String,
    directory_name: DirectoryName,
    title: String,
}

/// Joins `a`, `/` and `b`.
fn join_slash(a: &str, b: &str) -> (r: String)
    ensures
        r@ == a@ + seq!['/'] + b@,
{
    let mut r = String::new();
    r.push_str(a);
    r.push('/');
    r.push_str(b);
    assert(r@ =~= a@ + seq!['/'] + b@);
    r
}

/// What a `BenchmarkId` holds, as plain values.
pub struct BenchmarkIdView {
    pub group_id: Seq<char>,
    pub function_id: Option<Seq<char>>,
    pub value_str: Option<Seq<char>>,
    pub throughput: Option<Throughput>,
    pub full_id: Seq<char>,
    pub title: Seq<char>,
    pub directory: DirView,
}

impl View for BenchmarkId {
    type V = BenchmarkIdView;

    closed spec fn view(&self) -> BenchmarkIdView {
        BenchmarkIdView {
            group_id: self.group_id@,
            function_id: opt_text(self.function_id),
            value_str: opt_text(self.value_str),
            throughput: self.throughput,
            full_id: self.full_id@,
            title: self.title@,
            directory: self.directory_name@,
        }
    }
}

impl BenchmarkId {
    /// The group, as the view holds it.
    pub fn group_id(&self) -> (r: &String)
        ensures
            r@ == self@.group_id,
    {
        &self.group_id
    }

    /// The function, as the view holds it.
    pub fn function_id(&self) -> (r: &Option<String>)
        ensures
            opt_text(*r) == self@.function_id,
    {
        &self.function_id
    }

    /// The parameter, as the view holds it.
    pub fn value_str(&self) -> (r: &Option<String>)
        ensures
            opt_text(*r) == self@.value_str,
    {
        &self.value_str
    }

    /// The throughput, as the view holds it.
    pub fn throughput(&self) -> (r: Option<Throughput>)
        ensures
            r == self@.throughput,
    {
        self.throughput
    }

    /// Builds the id; the title is the full id `group/function/value` cut to
    /// `MAX_TITLE_LEN` bytes, and the directory is made of file-name-safe parts.
    pub fn new(
        group_id: String,
        function_id: Option<String>,
        value_str: Option<String>,
        throughput: Option<Throughput>,
    ) -> (id: BenchmarkId)
        ensures
            id@.group_id == group_id@,
            id@.function_id == opt_text(function_id),
            id@.value_str == opt_text(value_str),
            id@.throughput == throughput,
            id@.full_id == full_id_text(group_id@, opt_text(function_id), opt_text(value_str)),
            id@.title == title_text(id@.full_id),
            id@.directory == directory_view(group_id@, opt_text(function_id), opt_text(value_str)),
            id@.directory.wf(),
    {
        let full_id = match (&function_id, &value_str) {
            (Some(func), Some(val)) => {
                let a = join_slash(group_id.as_str(), func.as_str());
                join_slash(a.as_str(), val.as_str())
            },
            (Some(func), None) => join_slash(group_id.as_str(), func.as_str()),
            (None, Some(val)) => join_slash(group_id.as_str(), val.as_str()),
            (None, None) => group_id.clone(),
        };
        let mut title = full_id.clone();
        truncate_to_character_boundary(&mut title, MAX_TITLE_LEN);
        let full_chars = chars_of(full_id.as_str());
        let fits = fit_prefix(&full_chars, MAX_TITLE_LEN) == full_chars.len();
        proof {
            lemma_keep_within_props(full_id@, MAX_TITLE_LEN as nat);
            assert(full_chars@.take(full_chars.len() as int) =~= full_chars@);
        }
        if !fits {
            title.push_str("...");
            proof {
                reveal_strlit("...");
                assert(title@ =~= keep_within(full_id@, MAX_TITLE_LEN as nat) + ellipsis());
            }
        }
        let mut directory_name = DirectoryName::empty();
        directory_name.push(make_filename_safe(group_id.as_str()));
        match &function_id {
            Some(func) => directory_name.push(make_filename_safe(func.as_str())),
            None => {},
        }
        match &value_str {
            Some(val) => directory_name.push(make_filename_safe(val.as_str())),
            None => {},
        }
        BenchmarkId {
            group_id,
            function_id,
            value_str,
            throughput,
            full_id,
            directory_name,
            title,
        }
    }

    /// The title shown in reports.
    pub fn as_title(&self) -> (r: &str)
        ensures
            r@ == self@.title,
    {
        self.title.as_str()
    }

    /// The directory that holds the benchmark's files.
    pub fn as_directory_name(&self) -> (r: &DirectoryName)
        ensures
            r@ == self@.directory,
    {
        &self.directory_name
    }

    /// Makes the title differ from every one of `existing_titles`: when it is
    /// taken, appends ` #n` for the first `n` from 2 on that gives a free title.
    pub fn ensure_title_unique(&mut self, existing_titles: &[String])
        requires
            existing_titles@.len() < 0x7fff_fffe,
        ensures
            final(self)@ == (BenchmarkIdView { title: final(self)@.title, ..old(self)@ }),
            !title_taken(existing_titles@, old(self)@.title) ==> final(self)@.title == old(self)@.title,
            title_taken(existing_titles@, old(self)@.title) ==> exists|counter: nat|
                first_free_title_counter(existing_titles@, old(self)@.title, counter)
                    && final(self)@.title == numbered_title(old(self)@.title, counter),
            !title_taken(existing_titles@, final(self)@.title),
    {
        if !title_in(existing_titles, &self.title) {
            return;
        }
        let ghost title = self.title@;
        let ghost texts = existing_titles@.map_values(|s: String| s@);
        let mut counter: u64 = 2;
        loop
            invariant
                2 <= counter <= existing_titles@.len() + 2,
                title == self.title@,
                self@ == old(self)@,
                title_taken(existing_titles@, title),
                existing_titles@.len() < 0x7fff_fffe,
                texts == existing_titles@.map_values(|s: String| s@),
                forall|j: nat| 2 <= j < counter ==> title_taken(existing_titles@, #[trigger] numbered_title(title, j)),
            decreases existing_titles@.len() + 2 - counter,
        {
            let mut new_title = self.title.clone();
            new_title.push_str(" #");
            push_decimal(&mut new_title, counter);
            proof {
                reveal_strlit(" #");
                assert(new_title@ =~= numbered_title(title, counter as nat));
            }
            if !title_in(existing_titles, &new_title) {
                assert(first_free_title_counter(existing_titles@, title, counter as nat));
                self.title = new_title;
                return;
            }
            proof {
                let f = |j: nat| numbered_title(title, j);
                assert forall|j: nat| 2 <= j < counter + 1 implies texts.contains(#[trigger] f(j)) by {
                    let i = choose|i: int| 0 <= i < existing_titles@.len() && #[trigger] existing_titles@[i]@ == numbered_title(title, j);
                    assert(texts[i] == f(j));
                }
                assert forall|a: nat, b: nat| 2 <= a < counter + 1 && 2 <= b < counter + 1 && #[trigger] f(a) == #[trigger] f(b) implies a == b by {
                    lemma_numbered_title_injective(title, a, b);
                }
                lemma_injective_count(f, texts, 2, (counter + 1) as nat);
            }
            counter = counter + 1;
        }
    }

    /// Makes the directory differ from every one of `existing_directories`: when
    /// it is taken, its file name gets `_n` for the first `n` from 2 on that
    /// gives a free directory.
    pub fn ensure_directory_name_unique(&mut self, existing_directories: &[DirectoryName])
        requires
            existing_directories@.len() < 0x7fff_fffe,
            directory_taken(existing_directories@, old(self)@.directory) ==> old(self)@.directory.file_name() is Some,
        ensures
            final(self)@ == (BenchmarkIdView { directory: final(self)@.directory, ..old(self)@ }),
            !directory_taken(existing_directories@, old(self)@.directory) ==> final(self)@.directory == old(self)@.directory,
            directory_taken(existing_directories@, old(self)@.directory) ==> exists|counter: nat|
                first_free_directory_counter(
                    existing_directories@,
                    old(self)@.directory,
                    counter,
                ) && final(self)@.directory == numbered_directory(old(self)@.directory, counter),
            !directory_taken(existing_directories@, final(self)@.directory),
    {
        if !directory_in(existing_directories, &self.directory_name) {
            return;
        }
        let ghost dir = self.directory_name@;
        let ghost comps = existing_directories@.map_values(
            |d: DirectoryName| kept_segments(d@.segments),
        );
        let name = match self.directory_name.file_name() {
            Some(n) => n,
            None => {
                assert(false);
                return;
            },
        };
        let mut counter: u64 = 2;
        loop
            invariant
                2 <= counter <= existing_directories@.len() + 2,
                dir == self.directory_name@,
                self@ == old(self)@,
                directory_taken(existing_directories@, dir),
                existing_directories@.len() < 0x7fff_fffe,
                dir.file_name() == Some(name@),
                name@.len() > 0,
                !name@.contains('/'),
                comps == existing_directories@.map_values(
                    |d: DirectoryName| kept_segments(d@.segments),
                ),
                forall|j: nat|
                    2 <= j < counter ==> directory_taken(
                        existing_directories@,
                        #[trigger] numbered_directory(dir, j),
                    ),
            decreases existing_directories@.len() + 2 - counter,
        {
            let mut new_name = name.clone();
            new_name.push('_');
            push_decimal(&mut new_name, counter);
            assert(new_name@ =~= numbered_name(name@, counter as nat));
            proof {
                lemma_numbered_name_normal(name@, counter as nat);
            }
            let candidate = self.directory_name.with_file_name(new_name);
            if !directory_in(existing_directories, &candidate) {
                assert(candidate@ == numbered_directory(dir, counter as nat));
                assert(first_free_directory_counter(existing_directories@, dir, counter as nat));
                self.directory_name = candidate;
                return;
            }
            proof {
                let f = |j: nat| kept_segments(numbered_directory(dir, j).segments);
                assert forall|j: nat| 2 <= j < counter + 1 implies comps.contains(#[trigger] f(j)) by {
                    let i = choose|i: int|
                        0 <= i < existing_directories@.len()
                            && #[trigger] existing_directories@[i]@.same_path(numbered_directory(dir, j));
                    assert(comps[i] == f(j));
                }
                assert forall|a: nat, b: nat|
                    2 <= a < counter + 1 && 2 <= b < counter + 1 && #[trigger] f(a) == #[trigger] f(b)
                    implies a == b by {
                    lemma_numbered_directory_injective(dir, a, b);
                }
                lemma_injective_count(f, comps, 2, (counter + 1) as nat);
            }
            counter = counter + 1;
        }
    }

    /// The text that `Debug` shows of the id.
    pub fn to_debug_string(&self) -> (r: String)
        ensures
            r@ == "BenchmarkId { group_id: \""@ + self@.group_id + "\", function_id: "@
                + optional_text(self@.function_id) + ", value_str: "@ + optional_text(
                self@.value_str,
            ) + ", throughput: "@ + throughput_debug(self@.throughput) + " }"@,
    {
        let mut r = String::new();
        r.push_str("BenchmarkId { group_id: \"");
        r.push_str(self.group_id.as_str());
        r.push_str("\", function_id: ");
        r.push_str(format_opt(&self.function_id).as_str());
        r.push_str(", value_str: ");
        r.push_str(format_opt(&self.value_str).as_str());
        r.push_str(", throughput: ");
        r.push_str(debug_throughput(&self.throughput).as_str());
        r.push_str(" }");
        r
    }

    /// Bytes or elements for a throughput; otherwise a plain value when the
    /// parameter reads as a number.
    pub fn value_type(&self) -> (r: Option<ValueType>)
        ensures
            r == match self@.throughput {
                Some(Throughput::Bytes(_)) | Some(Throughput::BytesDecimal(_)) => Some(
                    ValueType::Bytes,
                ),
                Some(Throughput::Elements(_)) => Some(ValueType::Elements),
                None => match self@.value_str {
                    Some(s) => if is_float_literal(s) {
                        Some(ValueType::Value)
                    } else {
                        None
                    },
                    None => None,
                },
            },
    {
        match self.throughput {
            Some(Throughput::Bytes(_)) | Some(Throughput::BytesDecimal(_)) => Some(ValueType::Bytes),
            Some(Throughput::Elements(_)) => Some(ValueType::Elements),
            None => match &self.value_str {
                Some(s) => if parses_as_float(s.as_str()) {
                    Some(ValueType::Value)
                } else {
                    None
                },
                None => None,
            },
        }
    }
}

} // verus!

verus! {

/// `PathBuf::push` on path texts: an absolute path replaces the base; otherwise
/// it is appended, after a `/` unless the base is empty or ends with one.
pub open spec fn push_text(base: Seq<char>, path: Seq<char>) -> Seq<char> {
    if path.len() > 0 && path[0] == '/' {
        path
    } else if base.len() == 0 || base.last() == '/' {
        base + path
    } else {
        base + seq!['/'] + path
    }
}

fn push_path(base: &str, path: &str) -> (r: String)
    ensures
        r@ == push_text(base@, path@),
{
    let b = chars_of(base);
    let p = chars_of(path);
    if p.len() > 0 && p[0] == '/' {
        return path.to_owned();
    }
    let mut r = base.to_owned();
    if !(b.len() == 0 || b[b.len() - 1] == '/') {
        r.push('/');
    }
    r.push_str(path);
    assert(r@ =~= push_text(base@, path@));
    r
}

/// Pushing onto a path: an absolute path takes the place of the base; a
/// relative one follows the base after a `/`, or directly when the base is
/// empty or already ends with `/`.
pub proof fn lemma_push_text(base: Seq<char>, path: Seq<char>)
    ensures
        path.len() > 0 && path[0] == '/' ==> push_text(base, path) == path,
        !(path.len() > 0 && path[0] == '/') && base.len() > 0 && base[base.len() - 1] != '/'
            ==> push_text(base, path) == base + seq!['/'] + path,
        !(path.len() > 0 && path[0] == '/') && (base.len() == 0 || base[base.len() - 1] == '/')
            ==> push_text(base, path) == base + path,
{
}

/// The report path of a file is the output directory, `/`, the benchmark's
/// directory, `/` and the file name, when none of the three is empty or
/// absolute and neither of the first two ends with `/`.
pub proof fn lemma_report_path_layout(out: Seq<char>, dir: Seq<char>, file: Seq<char>)
    requires
        out.len() > 0,
        out[out.len() - 1] != '/',
        dir.len() > 0,
        dir[0] != '/',
        dir[dir.len() - 1] != '/',
        file.len() > 0,
        file[0] != '/',
    ensures
        push_text(push_text(out, dir), file) == out + seq!['/'] + dir + seq!['/'] + file,
{
    let p = out + seq!['/'] + dir;
    assert(push_text(out, dir) == p);
    assert(p[p.len() - 1] == dir[dir.len() - 1]);
}

/// Where the reports of a run are written.
pub struct ReportContext {
    pub output_directory: String,
}

impl ReportContext {
    /// The path of a report file of a benchmark: the output directory, then the
    /// benchmark's directory, then `file_name`.
    pub fn report_path(&self, id: &BenchmarkId, file_name: &str) -> (r: String)
        ensures
            r@ == push_text(push_text(self.output_directory@, id@.directory.text()), file_name@),
    {
        let dir = id.as_directory_name().to_path_string();
        let p = push_path(self.output_directory.as_str(), dir.as_str());
        push_path(p.as_str(), file_name)
    }
}

/// `n` spaces.
pub open spec fn spaces(n: nat) -> Seq<char> {
    Seq::new(n, |i: int| ' ')
}

fn push_spaces(s: &mut String, n: usize)
    ensures
        final(s)@ == old(s)@ + spaces(n as nat),
{
    let mut i: usize = 0;
    while i < n
        invariant
            i <= n,
            s@ == old(s)@ + spaces(i as nat),
        decreases n - i,
    {
        s.push(' ');
        i = i + 1;
        assert(s@ =~= old(s)@ + spaces(i as nat));
    }
}

/// What the command-line report writes to clear the line it last wrote: a
/// carriage return, as many spaces as that line had bytes, and another
/// carriage return; nothing when lines are not overwritten.
pub open spec fn overwrite_text(enabled: bool, last_line_len: nat) -> Seq<char> {
    if enabled {
        seq!['\r'] + spaces(last_line_len) + seq!['\r']
    } else {
        Seq::empty()
    }
}

fn overwrite_string(enabled: bool, last_line_len: usize) -> (r: String)
    ensures
        r@ == overwrite_text(enabled, last_line_len as nat),
{
    let mut r = String::new();
    if enabled {
        r.push('\r');
        push_spaces(&mut r, last_line_len);
        r.push('\r');
    }
    assert(r@ =~= overwrite_text(enabled, last_line_len as nat));
    r
}

pub open spec fn colored(enabled: bool, colored_text: Seq<char>, plain: Seq<char>) -> Seq<char> {
    if enabled {
        colored_text
    } else {
        plain
    }
}

/// `Benchmarking <title>` and what follows.
pub open spec fn benchmarking_text(title: Seq<char>, rest: Seq<char>) -> Seq<char> {
    "Benchmarking "@ + title + rest
}

fn benchmarking_line(id: &BenchmarkId, rest: &str) -> (r: String)
    ensures
        r@ == benchmarking_text(id@.title, rest@),
{
    let mut r = String::new();
    r.push_str("Benchmarking ");
    r.push_str(id.as_title());
    r.push_str(rest);
    assert(r@ =~= benchmarking_text(id@.title, rest@));
    r
}

/// The iteration count of a measurement as the report shows it: every digit
/// when verbose, otherwise as `iter_count` writes it.
pub open spec fn iterations_text(verbose: bool, n: nat) -> Seq<char> {
    if verbose {
        decimal(n) + " iterations"@
    } else {
        iter_count_text(n)
    }
}

pub open spec fn collecting_text(
    sample_count: nat,
    estimate: Seq<char>,
    verbose: bool,
    iterations: nat,
) -> Seq<char> {
    ": Collecting "@ + decimal(sample_count) + " samples in estimated "@ + estimate + " ("@
        + iterations_text(verbose, iterations) + ")"@
}

fn collecting_string(sample_count: u64, estimate: &str, verbose: bool, iterations: u64) -> (r: String)
    ensures
        r@ == collecting_text(sample_count as nat, estimate@, verbose, iterations as nat),
{
    let mut r = String::new();
    r.push_str(": Collecting ");
    crate::text::push_decimal(&mut r, sample_count);
    r.push_str(" samples in estimated ");
    r.push_str(estimate);
    r.push_str(" (");
    if verbose {
        let mut it = String::new();
        crate::text::push_decimal(&mut it, iterations);
        it.push_str(" iterations");
        r.push_str(it.as_str());
    } else {
        r.push_str(iter_count(iterations).as_str());
    }
    r.push_str(")");
    assert(r@ =~= collecting_text(sample_count as nat, estimate@, verbose, iterations as nat));
    r
}

pub open spec fn in_green(coloring: bool, s: Seq<char>) -> Seq<char> {
    colored(coloring, green_text(s), s)
}

pub open spec fn in_yellow(coloring: bool, s: Seq<char>) -> Seq<char> {
    colored(coloring, yellow_text(s), s)
}

pub open spec fn in_red(coloring: bool, s: Seq<char>) -> Seq<char> {
    colored(coloring, red_text(s), s)
}

pub open spec fn in_bold(coloring: bool, s: Seq<char>) -> Seq<char> {
    colored(coloring, bold_text(s), s)
}

pub open spec fn in_faint(coloring: bool, s: Seq<char>) -> Seq<char> {
    colored(coloring, faint_text(s), s)
}

fn green_str(coloring: bool, s: &str) -> (r: String)
    ensures
        r@ == in_green(coloring, s@),
{
    if coloring {
        paint_green(s)
    } else {
        s.to_owned()
    }
}

fn yellow_str(coloring: bool, s: &str) -> (r: String)
    ensures
        r@ == in_yellow(coloring, s@),
{
    if coloring {
        paint_yellow(s)
    } else {
        s.to_owned()
    }
}

fn red_str(coloring: bool, s: &str) -> (r: String)
    ensures
        r@ == in_red(coloring, s@),
{
    if coloring {
        paint_red(s)
    } else {
        s.to_owned()
    }
}

fn bold_str(coloring: bool, s: &str) -> (r: String)
    ensures
        r@ == in_bold(coloring, s@),
{
    if coloring {
        paint_bold(s)
    } else {
        s.to_owned()
    }
}

fn faint_str(coloring: bool, s: &str) -> (r: String)
    ensures
        r@ == in_faint(coloring, s@),
{
    if coloring {
        paint_faint(s)
    } else {
        s.to_owned()
    }
}

/// The heading that the intra-group report writes above each summary.
pub open spec fn intra_group_heading() -> Seq<char> {
    "Intra-Group Comparison\n"@
}

/// The text before `time:   [` in the summary of a measurement: the title in
/// green, padded with spaces to 24 bytes. A title of more than 23 bytes goes
/// on a line of its own, and the padding then follows an empty green text.
/// The intra-group report writes its heading after that line, or first.
pub open spec fn summary_prefix(intra_group: bool, coloring: bool, title: Seq<char>) -> Seq<char> {
    let heading = if intra_group {
        intra_group_heading()
    } else {
        Seq::empty()
    };
    if byte_len(title) > 23 {
        in_green(coloring, title) + seq!['\n'] + heading + in_green(coloring, Seq::empty())
            + spaces(24)
    } else {
        heading + in_green(coloring, title) + spaces((24 - byte_len(title)) as nat)
    }
}

fn summary_prefix_string(intra_group: bool, coloring: bool, title: &str) -> (r: String)
    ensures
        r@ == summary_prefix(intra_group, coloring, title@),
{
    let cs = chars_of(title);
    let k = fit_prefix(&cs, 23);
    assert(cs@.take(cs@.len() as int) =~= cs@);
    let green_title = green_str(coloring, title);
    let mut r = String::new();
    if k < cs.len() {
        proof {
            crate::text::lemma_byte_len_take_mono(cs@, k as int + 1, cs@.len() as int);
        }
        r.push_str(green_title.as_str());
        r.push('\n');
        if intra_group {
            r.push_str("Intra-Group Comparison\n");
        }
        r.push_str(green_str(coloring, "").as_str());
        push_spaces(&mut r, 24);
        proof {
            assert(""@ =~= Seq::<char>::empty()) by {
                reveal_strlit("");
            }
        }
    } else {
        let len = crate::text::byte_len_of(title);
        if intra_group {
            r.push_str("Intra-Group Comparison\n");
        }
        r.push_str(green_title.as_str());
        push_spaces(&mut r, 24 - len);
    }
    assert(r@ =~= summary_prefix(intra_group, coloring, title@));
    r
}

/// An estimate, written out: the lower bound of its confidence interval, the
/// point estimate and the upper bound.
pub struct EstimateTexts {
    pub lower: String,
    pub point: String,
    pub upper: String,
}

/// A confidence interval, written out.
pub struct IntervalTexts {
    pub lower: String,
    pub upper: String,
}

/// The comparison of a measurement with the one before it, decided and
/// written out.
pub struct ChangeTexts {
    /// The p-value lies below the significance threshold.
    pub different_mean: bool,
    /// Where the confidence interval of the mean change lies against the
    /// noise threshold.
    pub threshold: ComparisonResult,
    /// The relative change of the mean time.
    pub time: EstimateTexts,
    /// The relative change of the throughput that each of the three changes of
    /// time gives (`lower` comes from `time.lower`, and so on).
    pub throughput: EstimateTexts,
    pub p_value: String,
    pub significance: String,
}

/// The outliers of a sample: how many of each kind, the size of the sample,
/// and each count as a percentage of the sample, written out.
pub struct OutlierTexts {
    pub low_severe: usize,
    pub low_mild: usize,
    pub high_mild: usize,
    pub high_severe: usize,
    pub sample_size: usize,
    pub total_percent: String,
    pub low_severe_percent: String,
    pub low_mild_percent: String,
    pub high_mild_percent: String,
    pub high_severe_percent: String,
}

/// What a verbose report adds about a measurement: its outliers, and the
/// intervals of its slope (with the fit of the slope at each bound), mean,
/// standard deviation, median and median absolute deviation.
pub struct DetailTexts {
    pub outliers: OutlierTexts,
    pub slope: Option<(IntervalTexts, IntervalTexts)>,
    pub mean: IntervalTexts,
    pub std_dev: IntervalTexts,
    pub median: IntervalTexts,
    pub median_abs_dev: IntervalTexts,
}

/// What the command-line reports show of a finished measurement, written out:
/// the typical time, the throughput that each of the three times gives (when
/// the benchmark has a throughput), the change against the run before (when
/// there was one), and the details.
pub struct MeasurementTexts {
    pub time: EstimateTexts,
    pub throughput: Option<EstimateTexts>,
    pub change: Option<ChangeTexts>,
    pub details: DetailTexts,
}

/// `[lower point upper]` with the bounds faint and the point as given.
pub open spec fn bracketed(coloring: bool, lower: Seq<char>, point: Seq<char>, upper: Seq<char>) -> Seq<
    char,
> {
    seq!['['] + in_faint(coloring, lower) + seq![' '] + point + seq![' '] + in_faint(coloring, upper)
        + seq![']']
}

fn bracketed_string(coloring: bool, lower: &str, point: &str, upper: &str) -> (r: String)
    ensures
        r@ == bracketed(coloring, lower@, point@, upper@),
{
    let mut r = String::new();
    r.push('[');
    r.push_str(faint_str(coloring, lower).as_str());
    r.push(' ');
    r.push_str(point);
    r.push(' ');
    r.push_str(faint_str(coloring, upper).as_str());
    r.push(']');
    assert(r@ =~= bracketed(coloring, lower@, point@, upper@));
    r
}

/// The line of the typical time: the prefix, then the interval with its point
/// in bold.
pub open spec fn time_line(intra_group: bool, coloring: bool, title: Seq<char>, t: EstimateTexts) -> Seq<
    char,
> {
    summary_prefix(intra_group, coloring, title) + "time:   "@ + bracketed(
        coloring,
        t.lower@,
        in_bold(coloring, t.point@),
        t.upper@,
    ) + seq!['\n']
}

/// The line of the throughput, indented by 24 spaces. A higher time gives a
/// lower throughput, so the throughput of the upper bound comes first.
pub open spec fn throughput_line(coloring: bool, t: EstimateTexts) -> Seq<char> {
    spaces(24) + "thrpt:  "@ + bracketed(coloring, t.upper@, in_bold(coloring, t.point@), t.lower@)
        + seq!['\n']
}

fn time_line_string(intra_group: bool, coloring: bool, title: &str, t: &EstimateTexts) -> (r: String)
    ensures
        r@ == time_line(intra_group, coloring, title@, *t),
{
    let mut r = summary_prefix_string(intra_group, coloring, title);
    r.push_str("time:   ");
    let point = bold_str(coloring, t.point.as_str());
    r.push_str(
        bracketed_string(coloring, t.lower.as_str(), point.as_str(), t.upper.as_str()).as_str(),
    );
    r.push('\n');
    assert(r@ =~= time_line(intra_group, coloring, title@, *t));
    r
}

fn throughput_line_string(coloring: bool, t: &EstimateTexts) -> (r: String)
    ensures
        r@ == throughput_line(coloring, *t),
{
    let mut r = String::new();
    push_spaces(&mut r, 24);
    r.push_str("thrpt:  ");
    let point = bold_str(coloring, t.point.as_str());
    r.push_str(
        bracketed_string(coloring, t.upper.as_str(), point.as_str(), t.lower.as_str()).as_str(),
    );
    r.push('\n');
    assert(r@ =~= throughput_line(coloring, *t));
    r
}

/// A point estimate of change as the report highlights it: bold green when
/// performance improved beyond the noise, bold red when it regressed beyond
/// it, plain otherwise.
pub open spec fn highlighted_change(coloring: bool, c: ChangeTexts, s: Seq<char>) -> Seq<char> {
    if !c.different_mean {
        s
    } else {
        match c.threshold {
            ComparisonResult::Improved => in_green(coloring, in_bold(coloring, s)),
            ComparisonResult::Regressed => in_red(coloring, in_bold(coloring, s)),
            ComparisonResult::NonSignificant => s,
        }
    }
}

/// The sentence that sums up a change.
pub open spec fn change_explanation(coloring: bool, c: ChangeTexts) -> Seq<char> {
    if !c.different_mean {
        "No change in performance detected."@
    } else {
        match c.threshold {
            ComparisonResult::Improved => "Performance has "@ + in_green(coloring, "improved"@)
                + "."@,
            ComparisonResult::Regressed => "Performance has "@ + in_red(coloring, "regressed"@)
                + "."@,
            ComparisonResult::NonSignificant => "Change within noise threshold."@,
        }
    }
}

/// ` (p = <p-value> < <threshold>)`, with `>` when the means do not differ.
pub open spec fn p_value_text(c: ChangeTexts) -> Seq<char> {
    " (p = "@ + c.p_value@ + (if c.different_mean {
        " < "@
    } else {
        " > "@
    }) + c.significance@ + ")"@
}

/// The lines on the change against the run before: the change of time (and,
/// for a benchmark with a throughput, the change of throughput under a
/// `change:` heading), then the explanation.
pub open spec fn change_block(coloring: bool, has_throughput: bool, c: ChangeTexts) -> Seq<char> {
    let time = change_time_text(coloring, c);
    let lines = if has_throughput {
        spaces(17) + "change:\n"@ + spaces(24) + "time:   "@ + time + spaces(24) + "thrpt:  "@
            + bracketed(
            coloring,
            c.throughput.upper@,
            highlighted_change(coloring, c, c.throughput.point@),
            c.throughput.lower@,
        ) + seq!['\n']
    } else {
        spaces(24) + "change: "@ + time
    };
    lines + spaces(24) + change_explanation(coloring, c) + seq!['\n']
}

fn highlighted_change_string(coloring: bool, c: &ChangeTexts, s: &str) -> (r: String)
    ensures
        r@ == highlighted_change(coloring, *c, s@),
{
    if !c.different_mean {
        s.to_owned()
    } else {
        match c.threshold {
            ComparisonResult::Improved => {
                let b = bold_str(coloring, s);
                green_str(coloring, b.as_str())
            },
            ComparisonResult::Regressed => {
                let b = bold_str(coloring, s);
                red_str(coloring, b.as_str())
            },
            ComparisonResult::NonSignificant => s.to_owned(),
        }
    }
}

fn change_explanation_string(coloring: bool, c: &ChangeTexts) -> (r: String)
    ensures
        r@ == change_explanation(coloring, *c),
{
    let mut r = String::new();
    if !c.different_mean {
        r.push_str("No change in performance detected.");
    } else {
        match c.threshold {
            ComparisonResult::Improved => {
                r.push_str("Performance has ");
                r.push_str(green_str(coloring, "improved").as_str());
                r.push_str(".");
            },
            ComparisonResult::Regressed => {
                r.push_str("Performance has ");
                r.push_str(red_str(coloring, "regressed").as_str());
                r.push_str(".");
            },
            ComparisonResult::NonSignificant => {
                r.push_str("Change within noise threshold.");
            },
        }
    }
    assert(r@ =~= change_explanation(coloring, *c));
    r
}

/// The interval of the change of time with its p-value, and a newline.
pub open spec fn change_time_text(coloring: bool, c: ChangeTexts) -> Seq<char> {
    bracketed(coloring, c.time.lower@, highlighted_change(coloring, c, c.time.point@), c.time.upper@)
        + p_value_text(c) + seq!['\n']
}

fn change_time_string(coloring: bool, c: &ChangeTexts) -> (r: String)
    ensures
        r@ == change_time_text(coloring, *c),
{
    let point = highlighted_change_string(coloring, c, c.time.point.as_str());
    let mut r = bracketed_string(coloring, c.time.lower.as_str(), point.as_str(), c.time.upper.as_str());
    let ghost a = r@;
    r.push_str(" (p = ");
    r.push_str(c.p_value.as_str());
    if c.different_mean {
        r.push_str(" < ");
    } else {
        r.push_str(" > ");
    }
    r.push_str(c.significance.as_str());
    r.push_str(")");
    assert(r@ =~= a + p_value_text(*c));
    r.push('\n');
    assert(r@ =~= change_time_text(coloring, *c));
    r
}

fn throughput_change_string(coloring: bool, c: &ChangeTexts) -> (r: String)
    ensures
        r@ == spaces(24) + "thrpt:  "@ + bracketed(
            coloring,
            c.throughput.upper@,
            highlighted_change(coloring, *c, c.throughput.point@),
            c.throughput.lower@,
        ) + seq!['\n'],
{
    let mut r = String::new();
    push_spaces(&mut r, 24);
    r.push_str("thrpt:  ");
    let point = highlighted_change_string(coloring, c, c.throughput.point.as_str());
    r.push_str(
        bracketed_string(coloring, c.throughput.upper.as_str(), point.as_str(), c.throughput.lower.as_str()).as_str(),
    );
    r.push('\n');
    r
}

fn change_block_string(coloring: bool, has_throughput: bool, c: &ChangeTexts) -> (r: String)
    ensures
        r@ == change_block(coloring, has_throughput, *c),
{
    let time = change_time_string(coloring, c);
    let mut r = String::new();
    if has_throughput {
        push_spaces(&mut r, 17);
        r.push_str("change:\n");
        push_spaces(&mut r, 24);
        r.push_str("time:   ");
        r.push_str(time.as_str());
        r.push_str(throughput_change_string(coloring, c).as_str());
    } else {
        push_spaces(&mut r, 24);
        r.push_str("change: ");
        r.push_str(time.as_str());
    }
    let ghost lines = r@;
    push_spaces(&mut r, 24);
    r.push_str(change_explanation_string(coloring, c).as_str());
    r.push('\n');
    assert(r@ =~= lines + spaces(24) + change_explanation(coloring, *c) + seq!['\n']);
    assert(r@ =~= change_block(coloring, has_throughput, *c));
    r
}

/// How many outliers there are of every kind.
pub open spec fn outlier_total(o: OutlierTexts) -> int {
    o.low_severe + o.low_mild + o.high_mild + o.high_severe
}

/// The line on one kind of outlier; none when there are none of that kind.
pub open spec fn outlier_kind_line(n: usize, percent: Seq<char>, label: Seq<char>) -> Seq<char> {
    if n == 0 {
        Seq::empty()
    } else {
        "  "@ + decimal(n as nat) + " ("@ + percent + "%) "@ + label + seq!['\n']
    }
}

/// The lines on the outliers of a sample: none when there are none; else how
/// many there are among how many measurements, in yellow, then a line for
/// each kind that occurs.
pub open spec fn outliers_text(coloring: bool, o: OutlierTexts) -> Seq<char> {
    if outlier_total(o) == 0 {
        Seq::empty()
    } else {
        in_yellow(
            coloring,
            "Found "@ + decimal(outlier_total(o) as nat) + " outliers among "@ + decimal(
                o.sample_size as nat,
            ) + " measurements ("@ + o.total_percent@ + "%)"@,
        ) + seq!['\n'] + outlier_kind_line(o.low_severe, o.low_severe_percent@, "low severe"@)
            + outlier_kind_line(o.low_mild, o.low_mild_percent@, "low mild"@) + outlier_kind_line(
            o.high_mild,
            o.high_mild_percent@,
            "high mild"@,
        ) + outlier_kind_line(o.high_severe, o.high_severe_percent@, "high severe"@)
    }
}

/// `t` ends with `tail`.
pub open spec fn ends_with(t: Seq<char>, tail: Seq<char>) -> bool {
    t.len() >= tail.len() && t.subrange(t.len() - tail.len(), t.len() as int) == tail
}

/// The outlier lines: nothing when there are no outliers. Otherwise a first
/// line `Found <total> outliers among <size> measurements (<percent>%)` (in
/// yellow when colouring), then, for each kind that occurs, in the order low
/// severe, low mild, high mild, high severe, a line with its count, its
/// percentage and its own label.
#[verifier::spinoff_prover]
#[verifier::rlimit(50)]
pub proof fn lemma_outlier_lines(coloring: bool, o: OutlierTexts)
    ensures
        o.low_severe == 0 && o.low_mild == 0 && o.high_mild == 0 && o.high_severe == 0
            ==> outliers_text(coloring, o) == Seq::<char>::empty(),
        ({
            let total = o.low_severe + o.low_mild + o.high_mild + o.high_severe;
            let found = "Found "@ + decimal(total as nat) + " outliers among "@ + decimal(
                o.sample_size as nat,
            ) + " measurements ("@ + o.total_percent@ + "%)\n"@;
            let lines = (if o.low_severe == 0 {
                Seq::<char>::empty()
            } else {
                "  "@ + decimal(o.low_severe as nat) + " ("@ + o.low_severe_percent@
                    + "%) low severe\n"@
            }) + (if o.low_mild == 0 {
                Seq::<char>::empty()
            } else {
                "  "@ + decimal(o.low_mild as nat) + " ("@ + o.low_mild_percent@ + "%) low mild\n"@
            }) + (if o.high_mild == 0 {
                Seq::<char>::empty()
            } else {
                "  "@ + decimal(o.high_mild as nat) + " ("@ + o.high_mild_percent@
                    + "%) high mild\n"@
            }) + (if o.high_severe == 0 {
                Seq::<char>::empty()
            } else {
                "  "@ + decimal(o.high_severe as nat) + " ("@ + o.high_severe_percent@
                    + "%) high severe\n"@
            });
            &&& total > 0 && !coloring ==> outliers_text(coloring, o) == found + lines
            &&& total > 0 ==> ends_with(outliers_text(coloring, o), lines)
        }),
{
    let l1 = if o.low_severe == 0 {
        Seq::<char>::empty()
    } else {
        "  "@ + decimal(o.low_severe as nat) + " ("@ + o.low_severe_percent@ + "%) low severe\n"@
    };
    let l2 = if o.low_mild == 0 {
        Seq::<char>::empty()
    } else {
        "  "@ + decimal(o.low_mild as nat) + " ("@ + o.low_mild_percent@ + "%) low mild\n"@
    };
    let l3 = if o.high_mild == 0 {
        Seq::<char>::empty()
    } else {
        "  "@ + decimal(o.high_mild as nat) + " ("@ + o.high_mild_percent@ + "%) high mild\n"@
    };
    let l4 = if o.high_severe == 0 {
        Seq::<char>::empty()
    } else {
        "  "@ + decimal(o.high_severe as nat) + " ("@ + o.high_severe_percent@
            + "%) high severe\n"@
    };
    assert(outlier_kind_line(o.low_severe, o.low_severe_percent@, "low severe"@) == l1) by {
        reveal_strlit("%) ");
        reveal_strlit("low severe");
        reveal_strlit("%) low severe\n");
        assert("%) low severe\n"@ =~= "%) "@ + "low severe"@ + seq!['\n']);
        lemma_kind_line(o.low_severe, o.low_severe_percent@, "low severe"@, "%) low severe\n"@);
    }
    assert(outlier_kind_line(o.low_mild, o.low_mild_percent@, "low mild"@) == l2) by {
        reveal_strlit("%) ");
        reveal_strlit("low mild");
        reveal_strlit("%) low mild\n");
        assert("%) low mild\n"@ =~= "%) "@ + "low mild"@ + seq!['\n']);
        lemma_kind_line(o.low_mild, o.low_mild_percent@, "low mild"@, "%) low mild\n"@);
    }
    assert(outlier_kind_line(o.high_mild, o.high_mild_percent@, "high mild"@) == l3) by {
        reveal_strlit("%) ");
        reveal_strlit("high mild");
        reveal_strlit("%) high mild\n");
        assert("%) high mild\n"@ =~= "%) "@ + "high mild"@ + seq!['\n']);
        lemma_kind_line(o.high_mild, o.high_mild_percent@, "high mild"@, "%) high mild\n"@);
    }
    assert(outlier_kind_line(o.high_severe, o.high_severe_percent@, "high severe"@) == l4) by {
        reveal_strlit("%) ");
        reveal_strlit("high severe");
        reveal_strlit("%) high severe\n");
        assert("%) high severe\n"@ =~= "%) "@ + "high severe"@ + seq!['\n']);
        lemma_kind_line(
            o.high_severe,
            o.high_severe_percent@,
            "high severe"@,
            "%) high severe\n"@,
        );
    }
    let lines = l1 + l2 + l3 + l4;
    if outlier_total(o) > 0 {
        let body = "Found "@ + decimal(outlier_total(o) as nat) + " outliers among "@ + decimal(
            o.sample_size as nat,
        ) + " measurements ("@ + o.total_percent@ + "%)"@;
        let head = in_yellow(coloring, body) + seq!['\n'];
        assert(outliers_text(coloring, o) == head + lines);
        let t = outliers_text(coloring, o);
        assert(t.subrange(t.len() - lines.len(), t.len() as int) =~= lines);
        if !coloring {
            assert(body + seq!['\n'] =~= "Found "@ + decimal(outlier_total(o) as nat)
                + " outliers among "@ + decimal(o.sample_size as nat) + " measurements ("@
                + o.total_percent@ + "%)\n"@) by {
                reveal_strlit("%)");
                reveal_strlit("%)\n");
            }
            assert(t =~= body + seq!['\n'] + lines);
        }
    }
}

proof fn lemma_kind_line(n: usize, percent: Seq<char>, label: Seq<char>, suffix: Seq<char>)
    requires
        suffix == "%) "@ + label + seq!['\n'],
    ensures
        outlier_kind_line(n, percent, label) == if n == 0 {
            Seq::<char>::empty()
        } else {
            "  "@ + decimal(n as nat) + " ("@ + percent + suffix
        },
{
    if n != 0 {
        assert(outlier_kind_line(n, percent, label) =~= "  "@ + decimal(n as nat) + " ("@ + percent
            + suffix);
    }
}

fn push_count(s: &mut String, n: usize)
    ensures
        final(s)@ == old(s)@ + decimal(n as nat),
{
    push_decimal(s, n as u64);
}

fn outlier_kind_string(n: usize, percent: &str, label: &str) -> (r: String)
    ensures
        r@ == outlier_kind_line(n, percent@, label@),
{
    let mut r = String::new();
    if n != 0 {
        r.push_str("  ");
        push_count(&mut r, n);
        r.push_str(" (");
        r.push_str(percent);
        r.push_str("%) ");
        r.push_str(label);
        r.push('\n');
    }
    assert(r@ =~= outlier_kind_line(n, percent@, label@));
    r
}

fn outliers_string(coloring: bool, o: &OutlierTexts) -> (r: String)
    requires
        outlier_total(*o) <= usize::MAX,
    ensures
        r@ == outliers_text(coloring, *o),
{
    let total = o.low_severe + o.low_mild + o.high_mild + o.high_severe;
    if total == 0 {
        return String::new();
    }
    let mut found = String::new();
    found.push_str("Found ");
    push_count(&mut found, total);
    found.push_str(" outliers among ");
    push_count(&mut found, o.sample_size);
    found.push_str(" measurements (");
    found.push_str(o.total_percent.as_str());
    found.push_str("%)");
    let mut r = yellow_str(coloring, found.as_str());
    r.push('\n');
    r.push_str(
        outlier_kind_string(o.low_severe, o.low_severe_percent.as_str(), "low severe").as_str(),
    );
    r.push_str(outlier_kind_string(o.low_mild, o.low_mild_percent.as_str(), "low mild").as_str());
    r.push_str(
        outlier_kind_string(o.high_mild, o.high_mild_percent.as_str(), "high mild").as_str(),
    );
    r.push_str(
        outlier_kind_string(o.high_severe, o.high_severe_percent.as_str(), "high severe").as_str(),
    );
    assert(r@ =~= outliers_text(coloring, *o));
    r
}

/// `[lower upper]`.
pub open spec fn interval_text(i: IntervalTexts) -> Seq<char> {
    seq!['['] + i.lower@ + seq![' '] + i.upper@ + seq![']']
}

fn interval_string(i: &IntervalTexts) -> (r: String)
    ensures
        r@ == interval_text(*i),
{
    let mut r = String::new();
    r.push('[');
    r.push_str(i.lower.as_str());
    r.push(' ');
    r.push_str(i.upper.as_str());
    r.push(']');
    assert(r@ =~= interval_text(*i));
    r
}

/// The details of a verbose report: the outliers, then one line each for the
/// slope (when there is one) with its fit, the mean with the standard
/// deviation, and the median with the median absolute deviation; each name
/// padded to 7 characters and each second name to 15.
pub open spec fn details_text(coloring: bool, d: DetailTexts) -> Seq<char> {
    let slope = match d.slope {
        Some(s) => "slope  "@ + interval_text(s.0) + " R^2            "@ + interval_text(s.1)
            + seq!['\n'],
        None => Seq::empty(),
    };
    outliers_text(coloring, d.outliers) + slope + "mean   "@ + interval_text(d.mean)
        + " std. dev.      "@ + interval_text(d.std_dev) + seq!['\n'] + "median "@
        + interval_text(d.median) + " med. abs. dev. "@ + interval_text(d.median_abs_dev) + seq![
        '\n',
    ]
}

fn details_string(coloring: bool, d: &DetailTexts) -> (r: String)
    requires
        outlier_total(d.outliers) <= usize::MAX,
    ensures
        r@ == details_text(coloring, *d),
{
    let mut r = outliers_string(coloring, &d.outliers);
    match &d.slope {
        Some(s) => {
            r.push_str("slope  ");
            r.push_str(interval_string(&s.0).as_str());
            r.push_str(" R^2            ");
            r.push_str(interval_string(&s.1).as_str());
            r.push('\n');
        },
        None => {},
    }
    r.push_str("mean   ");
    r.push_str(interval_string(&d.mean).as_str());
    r.push_str(" std. dev.      ");
    r.push_str(interval_string(&d.std_dev).as_str());
    r.push('\n');
    r.push_str("median ");
    r.push_str(interval_string(&d.median).as_str());
    r.push_str(" med. abs. dev. ");
    r.push_str(interval_string(&d.median_abs_dev).as_str());
    r.push('\n');
    assert(r@ =~= details_text(coloring, *d));
    r
}

/// What a command-line report holds: which of the two reports it is, its
/// settings, and the length in bytes of the line it last wrote.
pub struct CliReportView {
    pub intra_group: bool,
    pub enable_text_overwrite: bool,
    pub enable_text_coloring: bool,
    pub verbose: bool,
    pub show_differences: bool,
    pub last_line_len: nat,
}

/// What a command-line report writes after a line: nothing when lines are
/// overwritten; otherwise a newline, and the intra-group report then adds a
/// line that names it.
pub open spec fn line_end(intra_group: bool, overwrite: bool) -> Seq<char> {
    if overwrite {
        Seq::empty()
    } else if intra_group {
        seq!['\n'] + "CliReportIntraGroup - print_overwritable\n"@
    } else {
        seq!['\n']
    }
}

/// What the report writes for `line`.
pub open spec fn shown_line(v: CliReportView, line: Seq<char>) -> Seq<char> {
    line + line_end(v.intra_group, v.enable_text_overwrite)
}

/// What the report writes to put `line` in place of the line it last wrote.
pub open spec fn replacing_line(v: CliReportView, line: Seq<char>) -> Seq<char> {
    overwrite_text(v.enable_text_overwrite, v.last_line_len) + shown_line(v, line)
}

/// The report once it wrote `line`: when lines are overwritten it keeps the
/// length of `line`.
pub open spec fn after_line(v: CliReportView, line: Seq<char>) -> CliReportView {
    if v.enable_text_overwrite {
        CliReportView { last_line_len: (byte_len(line) as usize) as nat, ..v }
    } else {
        v
    }
}

/// When lines are overwritten, what clears the line after a write covers
/// exactly that line: a carriage return, a space for each of its bytes, and a
/// carriage return. When they are not, nothing is cleared and the report
/// keeps no length.
pub proof fn lemma_overwrite_clears_last_line(v: CliReportView, line: Seq<char>)
    requires
        byte_len(line) <= usize::MAX,
    ensures
        v.enable_text_overwrite ==> overwrite_text(
            after_line(v, line).enable_text_overwrite,
            after_line(v, line).last_line_len,
        ) == seq!['\r'] + spaces(byte_len(line)) + seq!['\r'],
        !v.enable_text_overwrite ==> after_line(v, line) == v && overwrite_text(
            v.enable_text_overwrite,
            v.last_line_len,
        ) == Seq::<char>::empty(),
{
}

pub open spec fn start_line(title: Seq<char>) -> Seq<char> {
    benchmarking_text(title, Seq::empty())
}

pub open spec fn warmup_line(title: Seq<char>, warmup_time: Seq<char>) -> Seq<char> {
    benchmarking_text(title, ": Warming up for "@ + warmup_time)
}

pub open spec fn analysis_line(title: Seq<char>) -> Seq<char> {
    benchmarking_text(title, ": Analyzing"@)
}

pub open spec fn measurement_start_line(
    verbose: bool,
    title: Seq<char>,
    sample_count: nat,
    estimate_time: Seq<char>,
    iter_count: nat,
) -> Seq<char> {
    benchmarking_text(title, collecting_text(sample_count, estimate_time, verbose, iter_count))
}

/// What a command-line report writes when a measurement is complete: it
/// clears its last line, then writes the typical time, the throughput when
/// there is one, the change against the run before when differences are
/// shown and there was such a run (the intra-group report never shows it),
/// and the details when verbose.
pub open spec fn measurement_text(v: CliReportView, title: Seq<char>, m: MeasurementTexts) -> Seq<
    char,
> {
    overwrite_text(v.enable_text_overwrite, v.last_line_len) + measurement_body(
        v.intra_group,
        v.enable_text_coloring,
        v.show_differences,
        v.verbose,
        title,
        m,
    )
}

/// The throughput line, when there is a throughput.
pub open spec fn throughput_part(coloring: bool, t: Option<EstimateTexts>) -> Seq<char> {
    match t {
        Some(t) => throughput_line(coloring, t),
        None => Seq::empty(),
    }
}

/// The lines on the change, when there is one and the report shows it.
pub open spec fn change_part(
    intra_group: bool,
    coloring: bool,
    show_differences: bool,
    m: MeasurementTexts,
) -> Seq<char> {
    match m.change {
        Some(ch) => if !intra_group && show_differences {
            change_block(coloring, m.throughput is Some, ch)
        } else {
            Seq::empty()
        },
        None => Seq::empty(),
    }
}

/// The details, when the report is verbose.
pub open spec fn details_part(coloring: bool, verbose: bool, d: DetailTexts) -> Seq<char> {
    if verbose {
        details_text(coloring, d)
    } else {
        Seq::empty()
    }
}

/// The summary of a measurement after the line is cleared.
pub open spec fn measurement_body(
    intra_group: bool,
    coloring: bool,
    show_differences: bool,
    verbose: bool,
    title: Seq<char>,
    m: MeasurementTexts,
) -> Seq<char> {
    time_line(intra_group, coloring, title, m.time) + throughput_part(coloring, m.throughput)
        + change_part(intra_group, coloring, show_differences, m) + details_part(
        coloring,
        verbose,
        m.details,
    )
}

/// A completed measurement can be written: when verbose, its outliers can be
/// counted in a machine word.
pub open spec fn writable_measurement(v: CliReportView, m: MeasurementTexts) -> bool {
    v.verbose ==> outlier_total(m.details.outliers) <= usize::MAX
}

fn print_line(last_line_len: &mut usize, overwrite: bool, intra_group: bool, line: String) -> (r:
    String)
    ensures
        r@ == line@ + line_end(intra_group, overwrite),
        overwrite ==> *final(last_line_len) == byte_len(line@) as usize,
        !overwrite ==> *final(last_line_len) == *old(last_line_len),
{
    if overwrite {
        *last_line_len = crate::text::byte_len_of(line.as_str());
        line
    } else {
        let mut r = line;
        r.push('\n');
        if intra_group {
            r.push_str("CliReportIntraGroup - print_overwritable\n");
        }
        assert(r@ =~= line@ + line_end(intra_group, overwrite));
        r
    }
}

fn replace_line(last_line_len: &mut usize, overwrite: bool, intra_group: bool, line: String) -> (r:
    String)
    ensures
        r@ == overwrite_text(overwrite, *old(last_line_len) as nat) + line@ + line_end(
            intra_group,
            overwrite,
        ),
        overwrite ==> *final(last_line_len) == byte_len(line@) as usize,
        !overwrite ==> *final(last_line_len) == *old(last_line_len),
{
    let mut r = overwrite_string(overwrite, *last_line_len);
    let shown = print_line(last_line_len, overwrite, intra_group, line);
    r.push_str(shown.as_str());
    assert(r@ =~= overwrite_text(overwrite, *old(last_line_len) as nat) + line@ + line_end(
        intra_group,
        overwrite,
    ));
    r
}

fn warmup_string(id: &BenchmarkId, warmup_time: &str) -> (r: String)
    ensures
        r@ == warmup_line(id@.title, warmup_time@),
{
    let mut rest = String::new();
    rest.push_str(": Warming up for ");
    rest.push_str(warmup_time);
    benchmarking_line(id, rest.as_str())
}

fn measurement_string(
    intra_group: bool,
    coloring: bool,
    show_differences: bool,
    verbose: bool,
    title: &str,
    m: &MeasurementTexts,
) -> (r: String)
    requires
        verbose ==> outlier_total(m.details.outliers) <= usize::MAX,
    ensures
        r@ == measurement_body(intra_group, coloring, show_differences, verbose, title@, *m),
{
    let mut r = time_line_string(intra_group, coloring, title, &m.time);
    let ghost a = r@;
    match &m.throughput {
        Some(t) => r.push_str(throughput_line_string(coloring, t).as_str()),
        None => {},
    }
    assert(r@ =~= a + throughput_part(coloring, m.throughput));
    let ghost b = r@;
    match &m.change {
        Some(ch) => {
            if !intra_group && show_differences {
                r.push_str(change_block_string(coloring, m.throughput.is_some(), ch).as_str());
            }
        },
        None => {},
    }
    assert(r@ =~= b + change_part(intra_group, coloring, show_differences, *m));
    let ghost c = r@;
    if verbose {
        r.push_str(details_string(coloring, &m.details).as_str());
    }
    assert(r@ =~= c + details_part(coloring, verbose, m.details));
    assert(r@ =~= measurement_body(intra_group, coloring, show_differences, verbose, title@, *m));
    r
}

/// The report that writes progress and results to the terminal.
pub struct CliReport {
    pub enable_text_overwrite: bool,
    pub enable_text_coloring: bool,
    pub verbose: bool,
    pub show_differences: bool,
    last_line_len: usize,
}

impl View for CliReport {
    type V = CliReportView;

    closed spec fn view(&self) -> CliReportView {
        CliReportView {
            intra_group: false,
            enable_text_overwrite: self.enable_text_overwrite,
            enable_text_coloring: self.enable_text_coloring,
            verbose: self.verbose,
            show_differences: self.show_differences,
            last_line_len: self.last_line_len as nat,
        }
    }
}

/// A `CliReport` is the plain command-line report, never the intra-group one.
pub proof fn lemma_cli_report_kind(r: &CliReport)
    ensures
        !r@.intra_group,
{
}

/// A `CliReportIntraGroup` is the intra-group report.
pub proof fn lemma_cli_report_intra_group_kind(r: &CliReportIntraGroup)
    ensures
        r@.intra_group,
{
}

impl CliReport {
    /// Whether lines are overwritten, as the view holds it.
    pub fn enable_text_overwrite(&self) -> (r: bool)
        ensures
            r == self@.enable_text_overwrite,
    {
        self.enable_text_overwrite
    }

    /// Whether text is coloured, as the view holds it.
    pub fn enable_text_coloring(&self) -> (r: bool)
        ensures
            r == self@.enable_text_coloring,
    {
        self.enable_text_coloring
    }

    /// Whether the report is verbose, as the view holds it.
    pub fn verbose(&self) -> (r: bool)
        ensures
            r == self@.verbose,
    {
        self.verbose
    }

    /// Whether changes against the run before are shown, as the view holds it.
    pub fn show_differences(&self) -> (r: bool)
        ensures
            r == self@.show_differences,
    {
        self.show_differences
    }

    pub fn new(
        enable_text_overwrite: bool,
        enable_text_coloring: bool,
        show_differences: bool,
        verbose: bool,
    ) -> (r: CliReport)
        ensures
            r@ == (CliReportView {
                intra_group: false,
                enable_text_overwrite,
                enable_text_coloring,
                verbose,
                show_differences,
                last_line_len: 0,
            }),
    {
        CliReport {
            enable_text_overwrite,
            enable_text_coloring,
            show_differences,
            verbose,
            last_line_len: 0,
        }
    }

    /// What clears the last line written, when lines are overwritten.
    pub fn text_overwrite(&self) -> (r: String)
        ensures
            r@ == overwrite_text(self@.enable_text_overwrite, self@.last_line_len),
    {
        overwrite_string(self.enable_text_overwrite, self.last_line_len)
    }

    /// What to write for `s`: `s` itself when lines are overwritten (and its
    /// length is kept), otherwise `s` and a newline.
    pub fn print_overwritable(&mut self, s: String) -> (r: String)
        ensures
            r@ == shown_line(old(self)@, s@),
            final(self)@ == after_line(old(self)@, s@),
    {
        print_line(&mut self.last_line_len, self.enable_text_overwrite, false, s)
    }

    pub fn green(&self, s: String) -> (r: String)
        ensures
            r@ == in_green(self@.enable_text_coloring, s@),
    {
        green_str(self.enable_text_coloring, s.as_str())
    }

    pub fn yellow(&self, s: String) -> (r: String)
        ensures
            r@ == in_yellow(self@.enable_text_coloring, s@),
    {
        yellow_str(self.enable_text_coloring, s.as_str())
    }

    pub fn red(&self, s: String) -> (r: String)
        ensures
            r@ == in_red(self@.enable_text_coloring, s@),
    {
        red_str(self.enable_text_coloring, s.as_str())
    }

    pub fn bold(&self, s: String) -> (r: String)
        ensures
            r@ == in_bold(self@.enable_text_coloring, s@),
    {
        bold_str(self.enable_text_coloring, s.as_str())
    }

    pub fn faint(&self, s: String) -> (r: String)
        ensures
            r@ == in_faint(self@.enable_text_coloring, s@),
    {
        faint_str(self.enable_text_coloring, s.as_str())
    }

    /// The lines on the outliers of a sample.
    pub fn outliers(&self, sample: &OutlierTexts) -> (r: String)
        requires
            outlier_total(*sample) <= usize::MAX,
        ensures
            r@ == outliers_text(self@.enable_text_coloring, *sample),
    {
        outliers_string(self.enable_text_coloring, sample)
    }

    /// What to write when a benchmark starts.
    pub fn benchmark_start(&mut self, id: &BenchmarkId) -> (r: String)
        ensures
            r@ == shown_line(old(self)@, start_line(id@.title)),
            final(self)@ == after_line(old(self)@, start_line(id@.title)),
    {
        let line = benchmarking_line(id, "");
        proof {
            reveal_strlit("");
            assert(""@ =~= Seq::<char>::empty());
        }
        print_line(&mut self.last_line_len, self.enable_text_overwrite, false, line)
    }

    /// What to write when the warm-up starts; `warmup_time` is its duration,
    /// written out.
    pub fn warmup(&mut self, id: &BenchmarkId, warmup_time: &str) -> (r: String)
        ensures
            r@ == replacing_line(old(self)@, warmup_line(id@.title, warmup_time@)),
            final(self)@ == after_line(old(self)@, warmup_line(id@.title, warmup_time@)),
    {
        let line = warmup_string(id, warmup_time);
        replace_line(&mut self.last_line_len, self.enable_text_overwrite, false, line)
    }

    /// What to write when the analysis starts.
    pub fn analysis(&mut self, id: &BenchmarkId) -> (r: String)
        ensures
            r@ == replacing_line(old(self)@, analysis_line(id@.title)),
            final(self)@ == after_line(old(self)@, analysis_line(id@.title)),
    {
        let line = benchmarking_line(id, ": Analyzing");
        replace_line(&mut self.last_line_len, self.enable_text_overwrite, false, line)
    }

    /// What to write when the measurement starts; `estimate_time` is its
    /// estimated duration, written out.
    pub fn measurement_start(
        &mut self,
        id: &BenchmarkId,
        sample_count: u64,
        estimate_time: &str,
        iter_count: u64,
    ) -> (r: String)
        ensures
            r@ == replacing_line(
                old(self)@,
                measurement_start_line(
                    old(self)@.verbose,
                    id@.title,
                    sample_count as nat,
                    estimate_time@,
                    iter_count as nat,
                ),
            ),
            final(self)@ == after_line(
                old(self)@,
                measurement_start_line(
                    old(self)@.verbose,
                    id@.title,
                    sample_count as nat,
                    estimate_time@,
                    iter_count as nat,
                ),
            ),
    {
        let rest = collecting_string(sample_count, estimate_time, self.verbose, iter_count);
        let line = benchmarking_line(id, rest.as_str());
        replace_line(&mut self.last_line_len, self.enable_text_overwrite, false, line)
    }

    /// What to write when a measurement is complete.
    pub fn measurement_complete(&self, id: &BenchmarkId, meas: &MeasurementTexts) -> (r: String)
        requires
            writable_measurement(self@, *meas),
        ensures
            r@ == measurement_text(self@, id@.title, *meas),
    {
        let mut r = self.text_overwrite();
        let body = measurement_string(
            false,
            self.enable_text_coloring,
            self.show_differences,
            self.verbose,
            id.as_title(),
            meas,
        );
        r.push_str(body.as_str());
        assert(r@ =~= measurement_text(self@, id@.title, *meas));
        r
    }

    /// What separates two groups of benchmarks.
    pub fn group_separator(&self) -> (r: String)
        ensures
            r@ == seq!['\n'],
    {
        let mut r = String::new();
        r.push('\n');
        r
    }
}

/// The command-line report of the intra-group comparisons: it writes as
/// `CliReport` does, but marks the lines it writes and heads each summary, and
/// leaves the change against the run before to the comparison tables.
pub struct CliReportIntraGroup {
    pub enable_text_overwrite: bool,
    pub enable_text_coloring: bool,
    pub verbose: bool,
    pub show_differences: bool,
    last_line_len: usize,
}

impl View for CliReportIntraGroup {
    type V = CliReportView;

    closed spec fn view(&self) -> CliReportView {
        CliReportView {
            intra_group: true,
            enable_text_overwrite: self.enable_text_overwrite,
            enable_text_coloring: self.enable_text_coloring,
            verbose: self.verbose,
            show_differences: self.show_differences,
            last_line_len: self.last_line_len as nat,
        }
    }
}

impl CliReportIntraGroup {
    /// Whether lines are overwritten, as the view holds it.
    pub fn enable_text_overwrite(&self) -> (r: bool)
        ensures
            r == self@.enable_text_overwrite,
    {
        self.enable_text_overwrite
    }

    /// Whether text is coloured, as the view holds it.
    pub fn enable_text_coloring(&self) -> (r: bool)
        ensures
            r == self@.enable_text_coloring,
    {
        self.enable_text_coloring
    }

    /// Whether the report is verbose, as the view holds it.
    pub fn verbose(&self) -> (r: bool)
        ensures
            r == self@.verbose,
    {
        self.verbose
    }

    /// Whether changes against the run before are shown, as the view holds it.
    pub fn show_differences(&self) -> (r: bool)
        ensures
            r == self@.show_differences,
    {
        self.show_differences
    }

    pub fn new(
        enable_text_overwrite: bool,
        enable_text_coloring: bool,
        show_differences: bool,
        verbose: bool,
    ) -> (r: CliReportIntraGroup)
        ensures
            r@ == (CliReportView {
                intra_group: true,
                enable_text_overwrite,
                enable_text_coloring,
                verbose,
                show_differences,
                last_line_len: 0,
            }),
    {
        CliReportIntraGroup {
            enable_text_overwrite,
            enable_text_coloring,
            show_differences,
            verbose,
            last_line_len: 0,
        }
    }

    /// What clears the last line written, when lines are overwritten.
    pub fn text_overwrite(&self) -> (r: String)
        ensures
            r@ == overwrite_text(self@.enable_text_overwrite, self@.last_line_len),
    {
        overwrite_string(self.enable_text_overwrite, self.last_line_len)
    }

    /// What to write for `s`: `s` itself when lines are overwritten (and its
    /// length is kept), otherwise `s`, a newline and a line naming the report.
    pub fn print_overwritable(&mut self, s: String) -> (r: String)
        ensures
            r@ == shown_line(old(self)@, s@),
            final(self)@ == after_line(old(self)@, s@),
    {
        print_line(&mut self.last_line_len, self.enable_text_overwrite, true, s)
    }

    pub fn green(&self, s: String) -> (r: String)
        ensures
            r@ == in_green(self@.enable_text_coloring, s@),
    {
        green_str(self.enable_text_coloring, s.as_str())
    }

    pub fn yellow(&self, s: String) -> (r: String)
        ensures
            r@ == in_yellow(self@.enable_text_coloring, s@),
    {
        yellow_str(self.enable_text_coloring, s.as_str())
    }

    pub fn red(&self, s: String) -> (r: String)
        ensures
            r@ == in_red(self@.enable_text_coloring, s@),
    {
        red_str(self.enable_text_coloring, s.as_str())
    }

    pub fn bold(&self, s: String) -> (r: String)
        ensures
            r@ == in_bold(self@.enable_text_coloring, s@),
    {
        bold_str(self.enable_text_coloring, s.as_str())
    }

    pub fn faint(&self, s: String) -> (r: String)
        ensures
            r@ == in_faint(self@.enable_text_coloring, s@),
    {
        faint_str(self.enable_text_coloring, s.as_str())
    }

    /// The lines on the outliers of a sample.
    pub fn outliers(&self, sample: &OutlierTexts) -> (r: String)
        requires
            outlier_total(*sample) <= usize::MAX,
        ensures
            r@ == outliers_text(self@.enable_text_coloring, *sample),
    {
        outliers_string(self.enable_text_coloring, sample)
    }

    /// What to write when a benchmark starts.
    pub fn benchmark_start(&mut self, id: &BenchmarkId) -> (r: String)
        ensures
            r@ == shown_line(old(self)@, start_line(id@.title)),
            final(self)@ == after_line(old(self)@, start_line(id@.title)),
    {
        let line = benchmarking_line(id, "");
        proof {
            reveal_strlit("");
            assert(""@ =~= Seq::<char>::empty());
        }
        print_line(&mut self.last_line_len, self.enable_text_overwrite, true, line)
    }

    /// What to write when the warm-up starts; `warmup_time` is its duration,
    /// written out.
    pub fn warmup(&mut self, id: &BenchmarkId, warmup_time: &str) -> (r: String)
        ensures
            r@ == replacing_line(old(self)@, warmup_line(id@.title, warmup_time@)),
            final(self)@ == after_line(old(self)@, warmup_line(id@.title, warmup_time@)),
    {
        let line = warmup_string(id, warmup_time);
        replace_line(&mut self.last_line_len, self.enable_text_overwrite, true, line)
    }

    /// What to write when the analysis starts.
    pub fn analysis(&mut self, id: &BenchmarkId) -> (r: String)
        ensures
            r@ == replacing_line(old(self)@, analysis_line(id@.title)),
            final(self)@ == after_line(old(self)@, analysis_line(id@.title)),
    {
        let line = benchmarking_line(id, ": Analyzing");
        replace_line(&mut self.last_line_len, self.enable_text_overwrite, true, line)
    }

    /// What to write when the measurement starts; `estimate_time` is its
    /// estimated duration, written out.
    pub fn measurement_start(
        &mut self,
        id: &BenchmarkId,
        sample_count: u64,
        estimate_time: &str,
        iter_count: u64,
    ) -> (r: String)
        ensures
            r@ == replacing_line(
                old(self)@,
                measurement_start_line(
                    old(self)@.verbose,
                    id@.title,
                    sample_count as nat,
                    estimate_time@,
                    iter_count as nat,
                ),
            ),
            final(self)@ == after_line(
                old(self)@,
                measurement_start_line(
                    old(self)@.verbose,
                    id@.title,
                    sample_count as nat,
                    estimate_time@,
                    iter_count as nat,
                ),
            ),
    {
        let rest = collecting_string(sample_count, estimate_time, self.verbose, iter_count);
        let line = benchmarking_line(id, rest.as_str());
        replace_line(&mut self.last_line_len, self.enable_text_overwrite, true, line)
    }

    /// What to write when a measurement is complete.
    pub fn measurement_complete(&self, id: &BenchmarkId, meas: &MeasurementTexts) -> (r: String)
        requires
            writable_measurement(self@, *meas),
        ensures
            r@ == measurement_text(self@, id@.title, *meas),
    {
        let mut r = self.text_overwrite();
        let body = measurement_string(
            true,
            self.enable_text_coloring,
            self.show_differences,
            self.verbose,
            id.as_title(),
            meas,
        );
        r.push_str(body.as_str());
        assert(r@ =~= measurement_text(self@, id@.title, *meas));
        r
    }

    /// What separates two groups of benchmarks.
    pub fn group_separator(&self) -> (r: String)
        ensures
            r@ == seq!['\n'],
    {
        let mut r = String::new();
        r.push('\n');
        r
    }
}

/// The command-line report in use: the plain one or the intra-group one.
pub enum CliReports {
    Cli(CliReport),
    CliIntraGroup(CliReportIntraGroup),
}

impl View for CliReports {
    type V = CliReportView;

    open spec fn view(&self) -> CliReportView {
        match self {
            CliReports::Cli(report) => report@,
            CliReports::CliIntraGroup(report) => report@,
        }
    }
}

impl CliReports {
    /// What the report in use writes when a benchmark starts.
    pub fn benchmark_start(&mut self, id: &BenchmarkId) -> (r: String)
        ensures
            r@ == shown_line(old(self)@, start_line(id@.title)),
            final(self)@ == after_line(old(self)@, start_line(id@.title)),
    {
        match self {
            CliReports::Cli(report) => report.benchmark_start(id),
            CliReports::CliIntraGroup(report) => report.benchmark_start(id),
        }
    }

    /// What the report in use writes when the warm-up starts.
    pub fn warmup(&mut self, id: &BenchmarkId, warmup_time: &str) -> (r: String)
        ensures
            r@ == replacing_line(old(self)@, warmup_line(id@.title, warmup_time@)),
            final(self)@ == after_line(old(self)@, warmup_line(id@.title, warmup_time@)),
    {
        match self {
            CliReports::Cli(report) => report.warmup(id, warmup_time),
            CliReports::CliIntraGroup(report) => report.warmup(id, warmup_time),
        }
    }

    /// What the report in use writes when the analysis starts.
    pub fn analysis(&mut self, id: &BenchmarkId) -> (r: String)
        ensures
            r@ == replacing_line(old(self)@, analysis_line(id@.title)),
            final(self)@ == after_line(old(self)@, analysis_line(id@.title)),
    {
        match self {
            CliReports::Cli(report) => report.analysis(id),
            CliReports::CliIntraGroup(report) => report.analysis(id),
        }
    }

    /// What the report in use writes when the measurement starts.
    pub fn measurement_start(
        &mut self,
        id: &BenchmarkId,
        sample_count: u64,
        estimate_time: &str,
        iter_count: u64,
    ) -> (r: String)
        ensures
            r@ == replacing_line(
                old(self)@,
                measurement_start_line(
                    old(self)@.verbose,
                    id@.title,
                    sample_count as nat,
                    estimate_time@,
                    iter_count as nat,
                ),
            ),
            final(self)@ == after_line(
                old(self)@,
                measurement_start_line(
                    old(self)@.verbose,
                    id@.title,
                    sample_count as nat,
                    estimate_time@,
                    iter_count as nat,
                ),
            ),
    {
        match self {
            CliReports::Cli(report) => report.measurement_start(
                id,
                sample_count,
                estimate_time,
                iter_count,
            ),
            CliReports::CliIntraGroup(report) => report.measurement_start(
                id,
                sample_count,
                estimate_time,
                iter_count,
            ),
        }
    }

    /// What the report in use writes when a measurement is complete.
    pub fn measurement_complete(&self, id: &BenchmarkId, meas: &MeasurementTexts) -> (r: String)
        requires
            writable_measurement(self@, *meas),
        ensures
            r@ == measurement_text(self@, id@.title, *meas),
    {
        match self {
            CliReports::Cli(report) => report.measurement_complete(id, meas),
            CliReports::CliIntraGroup(report) => report.measurement_complete(id, meas),
        }
    }

    /// What separates two groups of benchmarks.
    pub fn group_separator(&self) -> (r: String)
        ensures
            r@ == seq!['\n'],
    {
        match self {
            CliReports::Cli(report) => report.group_separator(),
            CliReports::CliIntraGroup(report) => report.group_separator(),
        }
    }
}

/// `s` right-aligned in a field of `width` characters.
pub open spec fn aligned_right(s: Seq<char>, width: nat) -> Seq<char> {
    if s.len() < width {
        spaces((width - s.len()) as nat) + s
    } else {
        s
    }
}

/// The report in the format of `cargo bench` with the bencher harness.
pub struct BencherReport;

impl BencherReport {
    /// What to write when the measurement starts.
    pub fn measurement_start(&self, id: &BenchmarkId) -> (r: String)
        ensures
            r@ == "test "@ + id@.title + " ... "@,
    {
        let mut r = String::new();
        r.push_str("test ");
        r.push_str(id.as_title());
        r.push_str(" ... ");
        r
    }

    /// What to write when a measurement is complete: the median and the
    /// standard deviation, written out in `unit`.
    pub fn measurement_complete(&self, median: &str, unit: &str, std_dev: &str) -> (r: String)
        ensures
            r@ == "bench: "@ + aligned_right(median@, 11) + " "@ + unit@ + "/iter (+/- "@ + std_dev@
                + ")\n"@,
    {
        let cs = chars_of(median);
        let mut r = String::new();
        r.push_str("bench: ");
        if cs.len() < 11 {
            push_spaces(&mut r, 11 - cs.len());
        }
        r.push_str(median);
        r.push_str(" ");
        r.push_str(unit);
        r.push_str("/iter (+/- ");
        r.push_str(std_dev);
        r.push_str(")\n");
        assert(r@ =~= "bench: "@ + aligned_right(median@, 11) + " "@ + unit@ + "/iter (+/- "@
            + std_dev@ + ")\n"@);
        r
    }

    /// What separates two groups of benchmarks.
    pub fn group_separator(&self) -> (r: String)
        ensures
            r@ == seq!['\n'],
    {
        let mut r = String::new();
        r.push('\n');
        r
    }
}

} // verus!
