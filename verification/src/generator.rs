//! Configuration of the register-access code generator, for use from build
//! scripts.
//!
//! The [`Generator`] builder collects the generator's options; from them it
//! decides which configuration errors to report, which paths Cargo should
//! watch, and the generator's command line.
use vstd::prelude::*;

verus! {

/// Byte or word endianness
#[derive(Clone, Copy, Debug, PartialEq)]
pub enum Endian {
    /// Big endian byte/word ordering
    Big,
    /// Little endian byte/word ordering
    Little,
}

/// Errors that can occur when generating code with PeakRDL-rust.
#[derive(Debug)]
pub enum Error {
    /// No input `.rdl` files were provided.
    NoInputs,
    /// `$OUT_DIR` is not set and no output directory was provided.
    /// This usually means the crate is not being used from a build script.
    NoOutDir,
    /// No top addrmap specified.
    NoTop,
    /// Could not determine a suitable cache directory for the generator binary.
    NoCacheDir,
    /// The current platform is not supported.
    UnsupportedPlatform { host: String },
    /// Failed to download the generator binary.
    DownloadFailed { url: String, reason: String },
    /// The downloaded binary's checksum did not match the expected value.
    ChecksumMismatch { expected: String, actual: String },
    /// Failed to spawn the generator binary.
    SpawnFailed { binary: String, source: String },
    /// The generator binary exited with a non-zero status.
    GeneratorFailed { status: Option<i32>, stdout: String, stderr: String },
    /// An I/O error occurred.
    Io(String),
}

/// The options of a [`Generator`], as values.
pub ghost struct GeneratorView {
    pub config_file: Option<Seq<char>>,
    pub files: Seq<Seq<char>>,
    pub incdir: Option<Seq<char>>,
    pub macros: Seq<(Seq<char>, Option<Seq<char>>)>,
    pub parameters: Seq<(Seq<char>, Seq<char>)>,
    pub top: Option<Seq<char>>,
    pub rename: Option<Seq<char>>,
    pub out_dir: Option<Seq<char>>,
    pub force: bool,
    pub fmt: bool,
    pub byte_endian: Option<Endian>,
    pub word_endian: Option<Endian>,
}

/// The options of a new generator: nothing set, output overwritten, not
/// formatted.
pub open spec fn default_options() -> GeneratorView {
    GeneratorView {
        config_file: None,
        files: seq![],
        incdir: None,
        macros: seq![],
        parameters: seq![],
        top: None,
        rename: None,
        out_dir: None,
        force: true,
        fmt: false,
        byte_endian: None,
        word_endian: None,
    }
}

/// The text of an optional string.
pub open spec fn opt_view(o: Option<String>) -> Option<Seq<char>> {
    match o {
        Some(s) => Some(s@),
        None => None,
    }
}

/// The texts of a list of strings.
pub open spec fn strings_view(v: Seq<String>) -> Seq<Seq<char>> {
    v.map_values(|s: String| s@)
}

/// `entries` with the entry for `key` set to `value`: the first entry with
/// that key is replaced in place; without one, the entry is added at the
/// end.
pub open spec fn set_entry<V>(entries: Seq<(Seq<char>, V)>, key: Seq<char>, value: V) -> Seq<
    (Seq<char>, V),
>
    decreases entries.len(),
{
    if entries.len() == 0 {
        seq![(key, value)]
    } else if entries[0].0 == key {
        entries.update(0, (key, value))
    } else {
        seq![entries[0]] + set_entry(entries.drop_first(), key, value)
    }
}

/// The keys and values of a list of named entries.
pub open spec fn entries_view<V: DeepView>(entries: Seq<(String, V)>) -> Seq<(Seq<char>, V::V)> {
    entries.map_values(|e: (String, V)| (e.0@, e.1.deep_view()))
}

/// Set the entry for `key` to `value`, as [`set_entry`] does.
fn set_entry_in<V: DeepView>(entries: &mut Vec<(String, V)>, key: String, value: V)
    ensures
        entries_view(final(entries)@) == set_entry(
            entries_view(old(entries)@),
            key@,
            value.deep_view(),
        ),
{
    let ghost old_view = entries_view(entries@);
    let mut i: usize = 0;
    while i < entries.len()
        invariant
            old_view == entries_view(entries@),
            old_view == entries_view(old(entries)@),
            i <= entries@.len(),
            forall|j: int| 0 <= j < i ==> #[trigger] old_view[j].0 != key@,
        decreases entries@.len() - i,
    {
        if entries[i].0 == key {
            proof {
                lemma_set_entry_found(old_view, key@, value.deep_view(), i as int);
            }
            entries.set(i, (key, value));
            assert(entries_view(entries@) =~= old_view.update(i as int, (key@, value.deep_view())));
            return ;
        }
        i += 1;
    }
    proof {
        lemma_set_entry_missing(old_view, key@, value.deep_view());
    }
    entries.push((key, value));
    assert(entries_view(entries@) =~= old_view.push((key@, value.deep_view())));
}

/// No two entries share a key.
pub open spec fn keys_distinct<V>(entries: Seq<(Seq<char>, V)>) -> bool {
    forall|i: int, j: int|
        0 <= i < entries.len() && 0 <= j < entries.len() && i != j ==> #[trigger] entries[i].0
            != #[trigger] entries[j].0
}

/// The value of the first entry for `key`, if there is one.
pub open spec fn entry_value<V>(entries: Seq<(Seq<char>, V)>, key: Seq<char>) -> Option<V>
    decreases entries.len(),
{
    if entries.len() == 0 {
        None
    } else if entries[0].0 == key {
        Some(entries[0].1)
    } else {
        entry_value(entries.drop_first(), key)
    }
}

/// Setting the entry for a key whose first entry is at `i` replaces it in
/// place.
proof fn lemma_set_entry_found<V>(entries: Seq<(Seq<char>, V)>, key: Seq<char>, value: V, i: int)
    requires
        0 <= i < entries.len(),
        entries[i].0 == key,
        forall|j: int| 0 <= j < i ==> #[trigger] entries[j].0 != key,
    ensures
        set_entry(entries, key, value) == entries.update(i, (key, value)),
    decreases entries.len(),
{
    if i > 0 {
        let rest = entries.drop_first();
        assert forall|j: int| 0 <= j < i - 1 implies #[trigger] rest[j].0 != key by {
            assert(entries[j + 1].0 != key);
        }
        lemma_set_entry_found(rest, key, value, i - 1);
        assert(seq![entries[0]] + rest.update(i - 1, (key, value)) =~= entries.update(
            i,
            (key, value),
        ));
    }
}

/// Setting the entry for a key that has none adds it at the end.
proof fn lemma_set_entry_missing<V>(entries: Seq<(Seq<char>, V)>, key: Seq<char>, value: V)
    requires
        forall|j: int| 0 <= j < entries.len() ==> #[trigger] entries[j].0 != key,
    ensures
        set_entry(entries, key, value) == entries.push((key, value)),
    decreases entries.len(),
{
    if entries.len() > 0 {
        let rest = entries.drop_first();
        assert forall|j: int| 0 <= j < rest.len() implies #[trigger] rest[j].0 != key by {
            assert(entries[j + 1].0 != key);
        }
        lemma_set_entry_missing(rest, key, value);
        assert(seq![entries[0]] + rest.push((key, value)) =~= entries.push((key, value)));
    }
}

/// The value for a key is the value of its first entry.
proof fn lemma_entry_value_first<V>(entries: Seq<(Seq<char>, V)>, key: Seq<char>, i: int)
    requires
        0 <= i < entries.len(),
        entries[i].0 == key,
        forall|j: int| 0 <= j < i ==> #[trigger] entries[j].0 != key,
    ensures
        entry_value(entries, key) == Some(entries[i].1),
    decreases entries.len(),
{
    if i > 0 {
        let rest = entries.drop_first();
        assert forall|j: int| 0 <= j < i - 1 implies #[trigger] rest[j].0 != key by {
            assert(entries[j + 1].0 != key);
        }
        assert(entries[0].0 != key);
        lemma_entry_value_first(rest, key, i - 1);
    }
}

/// A key without entries has no value.
proof fn lemma_entry_value_absent<V>(entries: Seq<(Seq<char>, V)>, key: Seq<char>)
    requires
        forall|j: int| 0 <= j < entries.len() ==> #[trigger] entries[j].0 != key,
    ensures
        entry_value(entries, key) is None,
    decreases entries.len(),
{
    if entries.len() > 0 {
        let rest = entries.drop_first();
        assert forall|j: int| 0 <= j < rest.len() implies #[trigger] rest[j].0 != key by {
            assert(entries[j + 1].0 != key);
        }
        assert(entries[0].0 != key);
        lemma_entry_value_absent(rest, key);
    }
}

/// The value for a key, when keys are distinct.
proof fn lemma_entry_value_distinct<V>(entries: Seq<(Seq<char>, V)>, key: Seq<char>)
    requires
        keys_distinct(entries),
    ensures
        forall|i: int|
            0 <= i < entries.len() && #[trigger] entries[i].0 == key ==> entry_value(entries, key)
                == Some(entries[i].1),
        (forall|i: int| 0 <= i < entries.len() ==> #[trigger] entries[i].0 != key) ==> entry_value(
            entries,
            key,
        ) is None,
{
    assert forall|i: int|
        0 <= i < entries.len() && #[trigger] entries[i].0 == key implies entry_value(entries, key)
        == Some(entries[i].1) by {
        assert forall|j: int| 0 <= j < i implies #[trigger] entries[j].0 != key by {
            assert(entries[j].0 != entries[i].0);
        }
        lemma_entry_value_first(entries, key, i);
    }
    if forall|i: int| 0 <= i < entries.len() ==> #[trigger] entries[i].0 != key {
        lemma_entry_value_absent(entries, key);
    }
}

/// After setting the entry for `key`, the value for `key` is `value`, the
/// values for other keys are unchanged, and keys stay distinct.
pub proof fn lemma_set_entry<V>(entries: Seq<(Seq<char>, V)>, key: Seq<char>, value: V, other: Seq<
    char,
>)
    requires
        keys_distinct(entries),
    ensures
        entry_value(set_entry(entries, key, value), key) == Some(value),
        other != key ==> entry_value(set_entry(entries, key, value), other) == entry_value(
            entries,
            other,
        ),
        keys_distinct(set_entry(entries, key, value)),
{
    let s = set_entry(entries, key, value);
    if exists|i: int| 0 <= i < entries.len() && #[trigger] entries[i].0 == key {
        let i = choose|i: int| 0 <= i < entries.len() && #[trigger] entries[i].0 == key;
        assert forall|j: int| 0 <= j < i implies #[trigger] entries[j].0 != key by {
            assert(entries[j].0 != entries[i].0);
        }
        lemma_set_entry_found(entries, key, value, i);
        assert forall|m: int| 0 <= m < s.len() implies #[trigger] s[m].0 == entries[m].0 by {}
        assert(keys_distinct(s)) by {
            assert forall|m: int, n: int|
                0 <= m < s.len() && 0 <= n < s.len() && m != n implies #[trigger] s[m].0
                != #[trigger] s[n].0 by {
                assert(entries[m].0 != entries[n].0);
            }
        }
        lemma_entry_value_distinct(s, key);
        assert(s[i].0 == key);
        lemma_entry_value_distinct(s, other);
        lemma_entry_value_distinct(entries, other);
        if other != key {
            if exists|m: int| 0 <= m < entries.len() && #[trigger] entries[m].0 == other {
                let m = choose|m: int| 0 <= m < entries.len() && #[trigger] entries[m].0 == other;
                assert(s[m] == entries[m]);
            } else {
                assert forall|m: int| 0 <= m < s.len() implies #[trigger] s[m].0 != other by {
                    assert(entries[m].0 != other);
                }
            }
        }
    } else {
        lemma_set_entry_missing(entries, key, value);
        assert(keys_distinct(s)) by {
            assert forall|m: int, n: int|
                0 <= m < s.len() && 0 <= n < s.len() && m != n implies #[trigger] s[m].0
                != #[trigger] s[n].0 by {
                if m < entries.len() && n < entries.len() {
                    assert(entries[m].0 != entries[n].0);
                } else if m < entries.len() {
                    assert(entries[m].0 != key);
                } else {
                    assert(entries[n].0 != key);
                }
            }
        }
        lemma_entry_value_distinct(s, key);
        assert(s[entries.len() as int].0 == key);
        lemma_entry_value_distinct(s, other);
        lemma_entry_value_distinct(entries, other);
        if other != key {
            if exists|m: int| 0 <= m < entries.len() && #[trigger] entries[m].0 == other {
                let m = choose|m: int| 0 <= m < entries.len() && #[trigger] entries[m].0 == other;
                assert(s[m] == entries[m]);
            } else {
                assert forall|m: int| 0 <= m < s.len() implies #[trigger] s[m].0 != other by {
                    if m < entries.len() {
                        assert(entries[m].0 != other);
                    }
                }
            }
        }
    }
}

/// Setting the entry for a key twice is setting it once, to the second
/// value.
pub proof fn lemma_set_entry_again<V>(entries: Seq<(Seq<char>, V)>, key: Seq<char>, v1: V, v2: V)
    ensures
        set_entry(set_entry(entries, key, v1), key, v2) == set_entry(entries, key, v2),
    decreases entries.len(),
{
    if entries.len() == 0 {
        assert(set_entry(seq![(key, v1)], key, v2) =~= seq![(key, v2)]);
    } else if entries[0].0 == key {
        assert(set_entry(entries, key, v1)[0].0 == key);
        assert(set_entry(entries, key, v1).update(0, (key, v2)) =~= entries.update(0, (key, v2)));
    } else {
        let rest = entries.drop_first();
        lemma_set_entry_again(rest, key, v1, v2);
        let once = set_entry(entries, key, v1);
        assert(once == seq![entries[0]] + set_entry(rest, key, v1));
        assert(once[0] == entries[0]);
        assert(once.drop_first() =~= set_entry(rest, key, v1));
    }
}

/// A `-D` definition: `name=value`, or `name` alone.
pub open spec fn definition(name: Seq<char>, value: Option<Seq<char>>) -> Seq<char> {
    match value {
        Some(v) => name + "="@ + v,
        None => name,
    }
}

/// The arguments that pass the preprocessor macros.
pub open spec fn macro_args(macros: Seq<(Seq<char>, Option<Seq<char>>)>) -> Seq<Seq<char>>
    decreases macros.len(),
{
    if macros.len() == 0 {
        seq![]
    } else {
        macro_args(macros.drop_last()) + seq![
            "-D"@,
            definition(macros.last().0, macros.last().1),
        ]
    }
}

/// The arguments that pass the top-level parameters.
pub open spec fn parameter_args(parameters: Seq<(Seq<char>, Seq<char>)>) -> Seq<Seq<char>>
    decreases parameters.len(),
{
    if parameters.len() == 0 {
        seq![]
    } else {
        parameter_args(parameters.drop_last()) + seq![
            "-D"@,
            definition(parameters.last().0, Some(parameters.last().1)),
        ]
    }
}

/// `flag value` when the option is set, nothing otherwise.
pub open spec fn option_args(flag: Seq<char>, value: Option<Seq<char>>) -> Seq<Seq<char>> {
    match value {
        Some(v) => seq![flag, v],
        None => seq![],
    }
}

/// `flag` when `set`, nothing otherwise.
pub open spec fn switch_args(flag: Seq<char>, set: bool) -> Seq<Seq<char>> {
    if set {
        seq![flag]
    } else {
        seq![]
    }
}

/// The arguments that choose an endianness.
pub open spec fn endian_args(flag: Seq<char>, e: Option<Endian>) -> Seq<Seq<char>> {
    match e {
        Some(Endian::Big) => seq![flag, "big"@],
        Some(Endian::Little) => seq![flag, "little"@],
        None => seq![],
    }
}

/// The generator's command line, for output into `top_dir`.
pub open spec fn command_line(g: GeneratorView, top_dir: Seq<char>) -> Seq<Seq<char>> {
    option_args("--peakrdl-cfg"@, g.config_file) + option_args("-I"@, g.incdir) + macro_args(
        g.macros,
    ) + option_args("--top"@, g.top) + option_args("--rename"@, g.rename) + parameter_args(
        g.parameters,
    ) + seq!["-o"@, top_dir] + switch_args("--force"@, g.force) + switch_args("--fmt"@, g.fmt)
        + endian_args("--byte-endian"@, g.byte_endian) + endian_args(
        "--word-endian"@,
        g.word_endian,
    ) + g.files
}

/// The two arguments that pass one definition.
pub open spec fn define_args(name: Seq<char>, value: Option<Seq<char>>) -> Seq<Seq<char>> {
    seq!["-D"@, definition(name, value)]
}

/// The arguments for the preprocessor macros are one `-D` pair per macro,
/// in order.
pub proof fn lemma_macro_args_pairs(macros: Seq<(Seq<char>, Option<Seq<char>>)>)
    ensures
        macro_args(macros).len() == 2 * macros.len(),
        forall|i: int|
            #![trigger macros[i]]
            0 <= i < macros.len() ==> macro_args(macros).subrange(2 * i, 2 * i + 2) == define_args(
                macros[i].0,
                macros[i].1,
            ),
    decreases macros.len(),
{
    if macros.len() > 0 {
        let init = macros.drop_last();
        lemma_macro_args_pairs(init);
        let args = macro_args(macros);
        assert(args == macro_args(init) + define_args(macros.last().0, macros.last().1));
        assert forall|i: int|
            #![trigger macros[i]]
            0 <= i < macros.len() implies args.subrange(2 * i, 2 * i + 2) == define_args(
                macros[i].0,
                macros[i].1,
            ) by {
            if i < init.len() {
                assert(init[i] == macros[i]);
                assert(args.subrange(2 * i, 2 * i + 2) =~= macro_args(init).subrange(2 * i, 2 * i + 2));
            } else {
                assert(args.subrange(2 * i, 2 * i + 2) =~= define_args(macros[i].0, macros[i].1));
            }
        }
    }
}

/// The arguments for the top-level parameters are one `-D name=value`
/// pair per parameter, in order.
pub proof fn lemma_parameter_args_pairs(parameters: Seq<(Seq<char>, Seq<char>)>)
    ensures
        parameter_args(parameters).len() == 2 * parameters.len(),
        forall|i: int|
            #![trigger parameters[i]]
            0 <= i < parameters.len() ==> parameter_args(parameters).subrange(2 * i, 2 * i + 2)
                == define_args(parameters[i].0, Some(parameters[i].1)),
    decreases parameters.len(),
{
    if parameters.len() > 0 {
        let init = parameters.drop_last();
        lemma_parameter_args_pairs(init);
        let args = parameter_args(parameters);
        assert(args == parameter_args(init) + define_args(
            parameters.last().0,
            Some(parameters.last().1),
        ));
        assert forall|i: int|
            #![trigger parameters[i]]
            0 <= i < parameters.len() implies args.subrange(2 * i, 2 * i + 2) == define_args(
                parameters[i].0,
                Some(parameters[i].1),
            ) by {
            if i < init.len() {
                assert(init[i] == parameters[i]);
                assert(args.subrange(2 * i, 2 * i + 2) =~= parameter_args(init).subrange(
                    2 * i,
                    2 * i + 2,
                ));
            } else {
                assert(args.subrange(2 * i, 2 * i + 2) =~= define_args(
                    parameters[i].0,
                    Some(parameters[i].1),
                ));
            }
        }
    }
}

/// When names are distinct, a parameter named `name` is passed once, as
/// `-D name=value` with the value it was last set to, at the place of its
/// entry; a name never set is not passed at all.
pub proof fn lemma_parameter_passed_once(parameters: Seq<(Seq<char>, Seq<char>)>, name: Seq<char>)
    requires
        keys_distinct(parameters),
    ensures
        forall|i: int|
            #![trigger parameters[i]]
            0 <= i < parameters.len() && parameters[i].0 == name ==> {
                &&& entry_value(parameters, name) == Some(parameters[i].1)
                &&& parameter_args(parameters).subrange(2 * i, 2 * i + 2) == define_args(
                    name,
                    Some(parameters[i].1),
                )
                &&& forall|j: int| 0 <= j < parameters.len() && j != i ==> parameters[j].0 != name
            },
        entry_value(parameters, name) is None ==> forall|j: int|
            0 <= j < parameters.len() ==> parameters[j].0 != name,
{
    lemma_parameter_args_pairs(parameters);
    lemma_entry_value_distinct(parameters, name);
    if entry_value(parameters, name) is None {
        assert forall|j: int| 0 <= j < parameters.len() implies parameters[j].0 != name by {
            if parameters[j].0 == name {
                assert(entry_value(parameters, name) == Some(parameters[j].1));
            }
        }
    }
}

/// When names are distinct, a macro named `name` is passed once, as
/// `-D name` or `-D name=value` with the value it was last defined with, at
/// the place of its entry; a name never defined is not passed at all.
pub proof fn lemma_macro_passed_once(macros: Seq<(Seq<char>, Option<Seq<char>>)>, name: Seq<char>)
    requires
        keys_distinct(macros),
    ensures
        forall|i: int|
            #![trigger macros[i]]
            0 <= i < macros.len() && macros[i].0 == name ==> {
                &&& entry_value(macros, name) == Some(macros[i].1)
                &&& macro_args(macros).subrange(2 * i, 2 * i + 2) == define_args(name, macros[i].1)
                &&& forall|j: int| 0 <= j < macros.len() && j != i ==> macros[j].0 != name
            },
        entry_value(macros, name) is None ==> forall|j: int|
            0 <= j < macros.len() ==> macros[j].0 != name,
{
    lemma_macro_args_pairs(macros);
    lemma_entry_value_distinct(macros, name);
    if entry_value(macros, name) is None {
        assert forall|j: int| 0 <= j < macros.len() implies macros[j].0 != name by {
            if macros[j].0 == name {
                assert(entry_value(macros, name) == Some(macros[j].1));
            }
        }
    }
}

/// The last setting wins: setting a parameter, a macro, the top addrmap or
/// the rename twice gives the command line of setting it once, to the
/// second value.
pub proof fn lemma_last_setting_wins(
    g: GeneratorView,
    top_dir: Seq<char>,
    name: Seq<char>,
    p1: Seq<char>,
    p2: Seq<char>,
    m1: Option<Seq<char>>,
    m2: Option<Seq<char>>,
    t1: Seq<char>,
    t2: Seq<char>,
)
    ensures
        command_line(
            GeneratorView {
                parameters: set_entry(set_entry(g.parameters, name, p1), name, p2),
                ..g
            },
            top_dir,
        ) == command_line(
            GeneratorView { parameters: set_entry(g.parameters, name, p2), ..g },
            top_dir,
        ),
        command_line(
            GeneratorView { macros: set_entry(set_entry(g.macros, name, m1), name, m2), ..g },
            top_dir,
        ) == command_line(GeneratorView { macros: set_entry(g.macros, name, m2), ..g }, top_dir),
        command_line(
            GeneratorView { top: Some(t2), ..GeneratorView { top: Some(t1), ..g } },
            top_dir,
        ) == command_line(GeneratorView { top: Some(t2), ..g }, top_dir),
        command_line(
            GeneratorView { rename: Some(t2), ..GeneratorView { rename: Some(t1), ..g } },
            top_dir,
        ) == command_line(GeneratorView { rename: Some(t2), ..g }, top_dir),
{
    lemma_set_entry_again(g.parameters, name, p1, p2);
    lemma_set_entry_again(g.macros, name, m1, m2);
}

/// The paths whose change should make Cargo run the build script again:
/// the input files, then the configuration file, then the include directory.
pub open spec fn watched_paths(g: GeneratorView) -> Seq<Seq<char>> {
    g.files + match g.config_file {
        Some(c) => seq![c],
        None => seq![],
    } + match g.incdir {
        Some(d) => seq![d],
        None => seq![],
    }
}

/// Builder for configuring and running the PeakRDL-rust code generator.
#[derive(Debug)]
pub struct Generator {
    /// A PeakRDL configuration TOML file.
    config_file: Option<String>,
    /// Input `.rdl` files, in dependency order (dependencies first, top last).
    files: Vec<String>,
    /// Search directry for files included with \`include "filename"
    incdir: Option<String>,
    /// Pre-defined Verilog-style preprocessor macros
    macros: Vec<(String, Option<String>)>,
    /// Top-level SystemRDL parameters
    parameters: Vec<(String, String)>,
    /// Top-level addrmap name.
    top: Option<String>,
    /// Override the top-component's instantiated name. By default, the instantiated name is the same as
    /// the component's type name
    rename: Option<String>,
    /// Output directory. Defaults to `$OUT_DIR`. The generated module is placed in a subfolder with
    /// the name of the instantiated top addrmap.
    out_dir: Option<String>,
    /// Overwrite the generated module directory if it already exists. Defaults to true.
    force: bool,
    /// Format the generated rust code using `rustfmt`.
    fmt: bool,
    /// Ordering of bytes within `accesswidth`-sized accesses to the register file.
    byte_endian: Option<Endian>,
    /// Ordering of `accesswidth`-sized words within a wide register.
    word_endian: Option<Endian>,
}

impl Generator {
    /// No two macros, and no two parameters, share a name.
    #[verifier::type_invariant]
    closed spec fn names_distinct(self) -> bool {
        &&& keys_distinct(self@.macros)
        &&& keys_distinct(self@.parameters)
    }
}

impl View for Generator {
    type V = GeneratorView;

    /// The options of this generator.
    closed spec fn view(&self) -> GeneratorView {
        GeneratorView {
            config_file: opt_view(self.config_file),
            files: strings_view(self.files@),
            incdir: opt_view(self.incdir),
            macros: entries_view(self.macros@),
            parameters: entries_view(self.parameters@),
            top: opt_view(self.top),
            rename: opt_view(self.rename),
            out_dir: opt_view(self.out_dir),
            force: self.force,
            fmt: self.fmt,
            byte_endian: self.byte_endian,
            word_endian: self.word_endian,
        }
    }
}

impl Generator {
    /// Create a new, empty configuration.
    pub fn new() -> (r: Self)
        ensures
            r@ == default_options(),
            keys_distinct(r@.parameters),
            keys_distinct(r@.macros),
    {
        let r = Generator {
            force: true,
            config_file: None,
            files: Vec::new(),
            incdir: None,
            macros: Vec::new(),
            parameters: Vec::new(),
            top: None,
            rename: None,
            out_dir: None,
            fmt: false,
            byte_endian: None,
            word_endian: None,
        };
        assert(r@.files =~= seq![]);
        assert(r@.macros =~= seq![]);
        assert(r@.parameters =~= seq![]);
        r
    }

    /// Specify the path to a PeakRDL configuration TOML file.
    pub fn config_file(&mut self, path: &str) -> (r: &mut Self)
        ensures
            r@ == (GeneratorView { config_file: Some(path@), ..old(self)@ }),
            *final(self) == *final(r),
            keys_distinct(r@.parameters),
            keys_distinct(r@.macros),
    {
        proof {
            use_type_invariant(&*self);
        }
        self.config_file = Some(path.to_string());
        self
    }

    /// Add a single input `.rdl` file.
    pub fn rdl_file(&mut self, path: &str) -> (r: &mut Self)
        ensures
            r@ == (GeneratorView { files: old(self)@.files.push(path@), ..old(self)@ }),
            *final(self) == *final(r),
            keys_distinct(r@.parameters),
            keys_distinct(r@.macros),
    {
        proof {
            use_type_invariant(&*self);
        }
        let mut files = Vec::new();
        std::mem::swap(&mut files, &mut self.files);
        files.push(path.to_string());
        self.files = files;
        assert(strings_view(self.files@) =~= old(self)@.files.push(path@));
        self
    }

    /// Add multiple input `.rdl` files (dependencies first, top-level last).
    pub fn rdl_files(&mut self, paths: &[&str]) -> (r: &mut Self)
        ensures
            r@ == (GeneratorView {
                files: old(self)@.files + paths@.map_values(|p: &str| p@),
                ..old(self)@
            }),
            *final(self) == *final(r),
            keys_distinct(r@.parameters),
            keys_distinct(r@.macros),
    {
        proof {
            use_type_invariant(&*self);
        }
        let ghost start = self@;
        let mut i: usize = 0;
        while i < paths.len()
            invariant
                i <= paths@.len(),
                keys_distinct(start.macros),
                keys_distinct(start.parameters),
                self@ == (GeneratorView {
                    files: start.files + paths@.subrange(0, i as int).map_values(|p: &str| p@),
                    ..start
                }),
            decreases paths@.len() - i,
        {
            let ghost before = self.files@;
            let path = paths[i].to_string();
            assert(path@ == paths@[i as int]@);
            let mut files = Vec::new();
            std::mem::swap(&mut files, &mut self.files);
            files.push(path);
            self.files = files;
            assert(strings_view(self.files@) =~= strings_view(before).push(paths@[i as int]@));
            assert(paths@.subrange(0, i + 1).map_values(|p: &str| p@) =~= paths@.subrange(
                0,
                i as int,
            ).map_values(|p: &str| p@).push(paths@[i as int]@));
            i += 1;
        }
        assert(paths@.subrange(0, i as int) =~= paths@);
        self
    }

    /// Search directry for files included with \`include "filename"
    pub fn include_dir(&mut self, dir: &str) -> (r: &mut Self)
        ensures
            r@ == (GeneratorView { incdir: Some(dir@), ..old(self)@ }),
            *final(self) == *final(r),
            keys_distinct(r@.parameters),
            keys_distinct(r@.macros),
    {
        proof {
            use_type_invariant(&*self);
        }
        self.incdir = Some(dir.to_string());
        self
    }

    /// Add a pre-defined a Verilog-style preprocessor macro.
    ///
    /// Defining a macro again replaces its value.
    pub fn proprocessor_macro(&mut self, name: &str, value: Option<&str>) -> (r: &mut Self)
        ensures
            r@ == (GeneratorView {
                macros: set_entry(
                    old(self)@.macros,
                    name@,
                    match value {
                        Some(v) => Some(v@),
                        None => None,
                    },
                ),
                ..old(self)@
            }),
            *final(self) == *final(r),
            keys_distinct(r@.parameters),
            keys_distinct(r@.macros),
    {
        proof {
            use_type_invariant(&*self);
        }
        let value = match value {
            Some(v) => Some(v.to_string()),
            None => None,
        };
        proof {
            lemma_set_entry(self@.macros, name@, opt_view(value), name@);
        }
        let mut macros = Vec::new();
        std::mem::swap(&mut macros, &mut self.macros);
        set_entry_in(&mut macros, name.to_string(), value);
        self.macros = macros;
        self
    }

    /// Add a top-level SystemRDL parameter
    ///
    /// Setting a parameter again replaces its value.
    pub fn parameter(&mut self, name: &str, value: &str) -> (r: &mut Self)
        ensures
            r@ == (GeneratorView {
                parameters: set_entry(old(self)@.parameters, name@, value@),
                ..old(self)@
            }),
            *final(self) == *final(r),
            keys_distinct(r@.parameters),
            keys_distinct(r@.macros),
    {
        proof {
            use_type_invariant(&*self);
        }
        proof {
            lemma_set_entry(self@.parameters, name@, value@, name@);
        }
        let mut parameters = Vec::new();
        std::mem::swap(&mut parameters, &mut self.parameters);
        set_entry_in(&mut parameters, name.to_string(), value.to_string());
        self.parameters = parameters;
        self
    }

    /// Override the top-level addrmap to elaborate. By default PeakRDL picks
    /// the last addrmap declared in the root namespace.
    pub fn top(&mut self, name: &str) -> (r: &mut Self)
        ensures
            r@ == (GeneratorView { top: Some(name@), ..old(self)@ }),
            *final(self) == *final(r),
            keys_distinct(r@.parameters),
            keys_distinct(r@.macros),
    {
        proof {
            use_type_invariant(&*self);
        }
        self.top = Some(name.to_string());
        self
    }

    /// Override the top-component's instantiated name. By default, the instantiated name is the same as
    /// the top component's type name
    pub fn rename(&mut self, name: &str) -> (r: &mut Self)
        ensures
            r@ == (GeneratorView { rename: Some(name@), ..old(self)@ }),
            *final(self) == *final(r),
            keys_distinct(r@.parameters),
            keys_distinct(r@.macros),
    {
        proof {
            use_type_invariant(&*self);
        }
        self.rename = Some(name.to_string());
        self
    }

    /// Override the output directory. Defaults to `$OUT_DIR` set by Cargo.
    /// The generated module is placed in a subfolder with the name of the instantiated top addrmap.
    pub fn out_dir(&mut self, path: &str) -> (r: &mut Self)
        ensures
            r@ == (GeneratorView { out_dir: Some(path@), ..old(self)@ }),
            *final(self) == *final(r),
            keys_distinct(r@.parameters),
            keys_distinct(r@.macros),
    {
        proof {
            use_type_invariant(&*self);
        }
        self.out_dir = Some(path.to_string());
        self
    }

    /// By default, the output directory (a subdirectory within [`Self::out_dir`]) will be completely
    /// overwritten. Set this to false to only allow the generator to run if the output dir
    /// does not yet exist.
    pub fn overwrite_output(&mut self, overwrite: bool) -> (r: &mut Self)
        ensures
            r@ == (GeneratorView { force: overwrite, ..old(self)@ }),
            *final(self) == *final(r),
            keys_distinct(r@.parameters),
            keys_distinct(r@.macros),
    {
        proof {
            use_type_invariant(&*self);
        }
        self.force = overwrite;
        self
    }

    /// Set to `true` to format the generated rust code using `rustfmt`.
    pub fn format_output(&mut self, format: bool) -> (r: &mut Self)
        ensures
            r@ == (GeneratorView { fmt: format, ..old(self)@ }),
            *final(self) == *final(r),
            keys_distinct(r@.parameters),
            keys_distinct(r@.macros),
    {
        proof {
            use_type_invariant(&*self);
        }
        self.fmt = format;
        self
    }

    /// Set the ordering of bytes within `accesswidth`-sized accesses to the register file.
    /// By default uses the `littleendian` and `bigendian` addrmap properties,
    /// or little endian if not defined.
    pub fn byte_endian(&mut self, endian: Endian) -> (r: &mut Self)
        ensures
            r@ == (GeneratorView { byte_endian: Some(endian), ..old(self)@ }),
            *final(self) == *final(r),
            keys_distinct(r@.parameters),
            keys_distinct(r@.macros),
    {
        proof {
            use_type_invariant(&*self);
        }
        self.byte_endian = Some(endian);
        self
    }

    /// Set the ordering of `accesswidth`-sized words within a wide register.
    /// By default uses the `littleendian` and `bigendian` addrmap properties,
    /// or little endian if not defined.
    pub fn word_endian(&mut self, endian: Endian) -> (r: &mut Self)
        ensures
            r@ == (GeneratorView { word_endian: Some(endian), ..old(self)@ }),
            *final(self) == *final(r),
            keys_distinct(r@.parameters),
            keys_distinct(r@.macros),
    {
        proof {
            use_type_invariant(&*self);
        }
        self.word_endian = Some(endian);
        self
    }

    /// Check the configuration and find the output directory: the one
    /// set, else `env_out_dir` (the value of `$OUT_DIR`, where it is set).
    ///
    /// Without input files this is [`Error::NoInputs`]; then, without a top
    /// addrmap, [`Error::NoTop`]; then, without an output directory,
    /// [`Error::NoOutDir`].
    pub fn resolve_out_dir(&self, env_out_dir: Option<String>) -> (r: Result<String, Error>)
        ensures
            self@.files.len() == 0 ==> r matches Err(Error::NoInputs),
            self@.files.len() > 0 && self@.top is None ==> r matches Err(Error::NoTop),
            self@.files.len() > 0 && self@.top is Some ==> match self@.out_dir {
                Some(d) => r matches Ok(o) && o@ == d,
                None => match env_out_dir {
                    Some(e) => r matches Ok(o) && o@ == e@,
                    None => r matches Err(Error::NoOutDir),
                },
            },
    {
        if self.files.len() == 0 {
            return Err(Error::NoInputs);
        }
        if self.top.is_none() {
            return Err(Error::NoTop);
        }
        match &self.out_dir {
            Some(p) => Ok(p.clone()),
            None => match env_out_dir {
                Some(e) => Ok(e),
                None => Err(Error::NoOutDir),
            },
        }
    }

    /// The instance name of the top addrmap: the rename, else the top
    /// addrmap's name. The generated module is placed in a subfolder of the
    /// output directory with this name.
    pub fn top_name(&self) -> (r: Option<String>)
        ensures
            opt_view(r) == match self@.rename {
                Some(n) => Some(n),
                None => self@.top,
            },
    {
        match &self.rename {
            Some(n) => Some(n.clone()),
            None => match &self.top {
                Some(t) => Some(t.clone()),
                None => None,
            },
        }
    }

    /// The paths whose change should make Cargo run the build script again.
    pub fn watched_paths(&self) -> (r: Vec<String>)
        ensures
            strings_view(r@) == watched_paths(self@),
    {
        let mut r: Vec<String> = Vec::new();
        let mut i: usize = 0;
        while i < self.files.len()
            invariant
                i <= self.files@.len(),
                strings_view(r@) == strings_view(self.files@.subrange(0, i as int)),
            decreases self.files@.len() - i,
        {
            let ghost prev = r@;
            r.push(self.files[i].clone());
            assert(strings_view(r@) =~= strings_view(prev).push(self.files@[i as int]@));
            assert(strings_view(self.files@.subrange(0, i + 1)) =~= strings_view(
                self.files@.subrange(0, i as int),
            ).push(self.files@[i as int]@));
            i += 1;
        }
        assert(self.files@.subrange(0, i as int) =~= self.files@);
        let ghost files = strings_view(r@);
        if let Some(c) = &self.config_file {
            r.push(c.clone());
        }
        let ghost with_config = strings_view(r@);
        assert(with_config =~= files + match self@.config_file {
            Some(c) => seq![c],
            None => seq![],
        });
        if let Some(d) = &self.incdir {
            r.push(d.clone());
        }
        assert(strings_view(r@) =~= with_config + match self@.incdir {
            Some(d) => seq![d],
            None => seq![],
        });
        r
    }

    /// The generator's command line, for output into `top_dir`.
    pub fn command_args(&self, top_dir: &str) -> (r: Vec<String>)
        ensures
            strings_view(r@) == command_line(self@, top_dir@),
            keys_distinct(self@.parameters),
            keys_distinct(self@.macros),
    {
        proof {
            use_type_invariant(self);
        }
        let mut args: Vec<String> = Vec::new();
        let ghost g = self@;
        // config file
        push_option(&mut args, "--peakrdl-cfg", &self.config_file);
        // include file
        push_option(&mut args, "-I", &self.incdir);
        // preprocessor macros
        let ghost before = strings_view(args@);
        let mut i: usize = 0;
        while i < self.macros.len()
            invariant
                g == self@,
                i <= self.macros@.len(),
                strings_view(args@) == before + macro_args(
                    entries_view(self.macros@.subrange(0, i as int)),
                ),
            decreases self.macros@.len() - i,
        {
            let ghost prev = args@;
            args.push("-D".to_string());
            let (name, value) = &self.macros[i];
            let mut define = name.clone();
            if let Some(value) = value {
                define.append("=");
                define.append(value.as_str());
            }
            args.push(define);
            proof {
                let e = entries_view(self.macros@.subrange(0, i + 1));
                assert(e.drop_last() =~= entries_view(self.macros@.subrange(0, i as int)));
                assert(strings_view(args@) =~= strings_view(prev) + seq!["-D"@, definition(e.last().0, e.last().1)]);
            }
            i += 1;
        }
        assert(self.macros@.subrange(0, i as int) =~= self.macros@);
        // top
        push_option(&mut args, "--top", &self.top);
        // rename
        push_option(&mut args, "--rename", &self.rename);
        // parameters
        let ghost before = strings_view(args@);
        let mut i: usize = 0;
        while i < self.parameters.len()
            invariant
                g == self@,
                i <= self.parameters@.len(),
                strings_view(args@) == before + parameter_args(
                    entries_view(self.parameters@.subrange(0, i as int)),
                ),
            decreases self.parameters@.len() - i,
        {
            let ghost prev = args@;
            args.push("-D".to_string());
            let (name, value) = &self.parameters[i];
            let mut define = name.clone();
            define.append("=");
            define.append(value.as_str());
            args.push(define);
            proof {
                let e = entries_view(self.parameters@.subrange(0, i + 1));
                assert(e.drop_last() =~= entries_view(self.parameters@.subrange(0, i as int)));
                assert(strings_view(args@) =~= strings_view(prev) + seq!["-D"@, definition(e.last().0, Some(e.last().1))]);
            }
            i += 1;
        }
        assert(self.parameters@.subrange(0, i as int) =~= self.parameters@);
        // output directory
        let ghost prev = args@;
        args.push("-o".to_string());
        args.push(top_dir.to_string());
        assert(strings_view(args@) =~= strings_view(prev) + seq!["-o"@, top_dir@]);
        // force
        let ghost prev = args@;
        if self.force {
            args.push("--force".to_string());
        }
        assert(strings_view(args@) =~= strings_view(prev) + switch_args("--force"@, g.force));
        // format
        let ghost prev = args@;
        if self.fmt {
            args.push("--fmt".to_string());
        }
        assert(strings_view(args@) =~= strings_view(prev) + switch_args("--fmt"@, g.fmt));
        // endianness
        push_endian(&mut args, "--byte-endian", self.byte_endian);
        push_endian(&mut args, "--word-endian", self.word_endian);
        // input files
        let ghost before = strings_view(args@);
        let mut i: usize = 0;
        while i < self.files.len()
            invariant
                g == self@,
                i <= self.files@.len(),
                strings_view(args@) == before + strings_view(self.files@.subrange(0, i as int)),
            decreases self.files@.len() - i,
        {
            let ghost prev = args@;
            args.push(self.files[i].clone());
            assert(strings_view(args@) =~= strings_view(prev).push(self.files@[i as int]@));
            assert(strings_view(self.files@.subrange(0, i + 1)) =~= strings_view(
                self.files@.subrange(0, i as int),
            ).push(self.files@[i as int]@));
            i += 1;
        }
        assert(self.files@.subrange(0, i as int) =~= self.files@);
        assert(strings_view(args@) =~= command_line(g, top_dir@));
        args
    }
}


/// Append `flag value` when the option is set.
fn push_option(args: &mut Vec<String>, flag: &str, value: &Option<String>)
    ensures
        strings_view(final(args)@) == strings_view(old(args)@) + option_args(flag@, opt_view(*value)),
{
    if let Some(v) = value {
        args.push(flag.to_string());
        args.push(v.clone());
    }
    assert(strings_view(args@) =~= strings_view(old(args)@) + option_args(flag@, opt_view(*value)));
}

/// Append the arguments that choose an endianness.
fn push_endian(args: &mut Vec<String>, flag: &str, e: Option<Endian>)
    ensures
        strings_view(final(args)@) == strings_view(old(args)@) + endian_args(flag@, e),
{
    match e {
        Some(Endian::Big) => {
            args.push(flag.to_string());
            args.push("big".to_string());
        },
        Some(Endian::Little) => {
            args.push(flag.to_string());
            args.push("little".to_string());
        },
        None => {},
    }
    assert(strings_view(args@) =~= strings_view(old(args)@) + endian_args(flag@, e));
}

impl Default for Generator {
    fn default() -> (r: Self)
        ensures
            r@ == default_options(),
            keys_distinct(r@.parameters),
            keys_distinct(r@.macros),
    {
        Self::new()
    }
}


/// The number of arguments that pass an optional value: two when it is set.
pub open spec fn pair_count<T>(o: Option<T>) -> int {
    if o is Some {
        2
    } else {
        0
    }
}


/// The arguments before the output directory.
spec fn head_args(g: GeneratorView) -> Seq<Seq<char>> {
    option_args("--peakrdl-cfg"@, g.config_file) + option_args("-I"@, g.incdir) + macro_args(
        g.macros,
    ) + option_args("--top"@, g.top) + option_args("--rename"@, g.rename) + parameter_args(
        g.parameters,
    )
}

/// The output directory and the arguments after it.
spec fn tail_args(g: GeneratorView, top_dir: Seq<char>) -> Seq<Seq<char>> {
    seq!["-o"@, top_dir] + switch_args("--force"@, g.force) + switch_args("--fmt"@, g.fmt)
        + endian_args("--byte-endian"@, g.byte_endian) + endian_args(
        "--word-endian"@,
        g.word_endian,
    ) + g.files
}

#[verifier::rlimit(100)]
proof fn lemma_command_line_split(g: GeneratorView, top_dir: Seq<char>)
    ensures
        command_line(g, top_dir) == head_args(g) + tail_args(g, top_dir),
{
    assert(command_line(g, top_dir) =~= head_args(g) + tail_args(g, top_dir));
}

/// Inserting `x` at `k` in `h0` and then appending `t` is inserting `x` at
/// `k` in `h0 + t`.
proof fn lemma_insert_then_append(h0: Seq<Seq<char>>, h1: Seq<Seq<char>>, t: Seq<Seq<char>>, x: Seq<Seq<char>>, k: int)
    requires
        0 <= k <= h0.len(),
        h1 == h0.subrange(0, k) + x + h0.subrange(k, h0.len() as int),
    ensures
        h1 + t == (h0 + t).subrange(0, k) + x + (h0 + t).subrange(k, (h0 + t).len() as int),
{
    assert(h1 + t =~= (h0 + t).subrange(0, k) + x + (h0 + t).subrange(k, (h0 + t).len() as int));
}

/// With no option set, the command line is the output directory and then
/// the input files.
pub proof fn lemma_command_line_bare(g: GeneratorView, top_dir: Seq<char>)
    requires
        g.config_file is None,
        g.incdir is None,
        g.macros.len() == 0,
        g.top is None,
        g.rename is None,
        g.parameters.len() == 0,
        !g.force,
        !g.fmt,
        g.byte_endian is None,
        g.word_endian is None,
    ensures
        command_line(g, top_dir) == seq!["-o"@, top_dir] + g.files,
{
    assert(command_line(g, top_dir) =~= seq!["-o"@, top_dir] + g.files);
}

/// A configuration file is passed first, as `--peakrdl-cfg` and its path;
/// the rest of the command line is as without it.
#[verifier::rlimit(100)]
pub proof fn lemma_command_line_config_file(g: GeneratorView, top_dir: Seq<char>, path: Seq<char>)
    ensures
        command_line(GeneratorView { config_file: Some(path), ..g }, top_dir) == seq![
            "--peakrdl-cfg"@,
            path,
        ] + command_line(GeneratorView { config_file: None, ..g }, top_dir),
{
    assert(command_line(GeneratorView { config_file: Some(path), ..g }, top_dir) =~= seq![
        "--peakrdl-cfg"@,
        path,
    ] + command_line(GeneratorView { config_file: None, ..g }, top_dir));
}

/// An include directory is passed as `-I` and its path, right after the
/// configuration file's arguments; the rest is as without it.
#[verifier::rlimit(100)]
pub proof fn lemma_command_line_include_dir(g: GeneratorView, top_dir: Seq<char>, dir: Seq<char>)
    ensures
        ({
            let without = command_line(GeneratorView { incdir: None, ..g }, top_dir);
            let k = pair_count(g.config_file);
            &&& k <= without.len()
            &&& command_line(GeneratorView { incdir: Some(dir), ..g }, top_dir) == without.subrange(
                0,
                k,
            ) + seq!["-I"@, dir] + without.subrange(k, without.len() as int)
        }),
{
    let g1 = GeneratorView { incdir: Some(dir), ..g };
    let g0 = GeneratorView { incdir: None, ..g };
    let k = pair_count(g.config_file);
    let x = seq!["-I"@, dir];
    lemma_command_line_split(g1, top_dir);
    lemma_command_line_split(g0, top_dir);
    assert(tail_args(g1, top_dir) == tail_args(g0, top_dir));
    let h0 = head_args(g0);
    assert(head_args(g1) =~= h0.subrange(0, k) + x + h0.subrange(k, h0.len() as int));
    lemma_insert_then_append(h0, head_args(g1), tail_args(g0, top_dir), x, k);
}

/// A macro defined after the others is passed as `-D` and `name` (or
/// `name=value`), right after the other macros; the rest is as without it.
#[verifier::rlimit(100)]
pub proof fn lemma_command_line_macro(
    g: GeneratorView,
    top_dir: Seq<char>,
    name: Seq<char>,
    value: Option<Seq<char>>,
)
    ensures
        ({
            let without = command_line(g, top_dir);
            let k = pair_count(g.config_file) + pair_count(g.incdir) + 2 * g.macros.len();
            let text = match value {
                Some(v) => name + "="@ + v,
                None => name,
            };
            &&& k <= without.len()
            &&& command_line(GeneratorView { macros: g.macros.push((name, value)), ..g }, top_dir)
                == without.subrange(0, k) + seq!["-D"@, text] + without.subrange(
                k,
                without.len() as int,
            )
        }),
{
    lemma_macro_args_pairs(g.macros);
    assert(g.macros.push((name, value)).drop_last() =~= g.macros);
    let g1 = GeneratorView { macros: g.macros.push((name, value)), ..g };
    let g0 = g;
    let k = pair_count(g.config_file) + pair_count(g.incdir) + 2 * g.macros.len();
    let x = seq!["-D"@, match value {
        Some(v) => name + "="@ + v,
        None => name,
    }];
    lemma_command_line_split(g1, top_dir);
    lemma_command_line_split(g0, top_dir);
    assert(tail_args(g1, top_dir) == tail_args(g0, top_dir));
    let h0 = head_args(g0);
    let a = option_args("--peakrdl-cfg"@, g.config_file) + option_args("-I"@, g.incdir)
        + macro_args(g.macros);
    let rest = option_args("--top"@, g.top) + option_args("--rename"@, g.rename) + parameter_args(
        g.parameters,
    );
    assert(macro_args(g1.macros) == macro_args(g.macros) + x);
    assert(h0 =~= a + rest);
    assert(head_args(g1) =~= (a + x) + rest);
    assert(a.len() == k);
    assert(head_args(g1) =~= h0.subrange(0, k) + x + h0.subrange(k, h0.len() as int));
    lemma_insert_then_append(h0, head_args(g1), tail_args(g0, top_dir), x, k);
}

/// The top addrmap is passed as `--top` and its name, right after the
/// macros; the rest is as without it.
#[verifier::rlimit(100)]
pub proof fn lemma_command_line_top(g: GeneratorView, top_dir: Seq<char>, name: Seq<char>)
    ensures
        ({
            let without = command_line(GeneratorView { top: None, ..g }, top_dir);
            let k = pair_count(g.config_file) + pair_count(g.incdir) + 2 * g.macros.len();
            &&& k <= without.len()
            &&& command_line(GeneratorView { top: Some(name), ..g }, top_dir) == without.subrange(
                0,
                k,
            ) + seq!["--top"@, name] + without.subrange(k, without.len() as int)
        }),
{
    lemma_macro_args_pairs(g.macros);
    let g1 = GeneratorView { top: Some(name), ..g };
    let g0 = GeneratorView { top: None, ..g };
    let k = pair_count(g.config_file) + pair_count(g.incdir) + 2 * g.macros.len();
    let x = seq!["--top"@, name];
    lemma_command_line_split(g1, top_dir);
    lemma_command_line_split(g0, top_dir);
    assert(tail_args(g1, top_dir) == tail_args(g0, top_dir));
    let h0 = head_args(g0);
    assert(head_args(g1) =~= h0.subrange(0, k) + x + h0.subrange(k, h0.len() as int));
    lemma_insert_then_append(h0, head_args(g1), tail_args(g0, top_dir), x, k);
}

/// The rename is passed as `--rename` and the new name, right after the top
/// addrmap's arguments; the rest is as without it.
#[verifier::rlimit(100)]
pub proof fn lemma_command_line_rename(g: GeneratorView, top_dir: Seq<char>, name: Seq<char>)
    ensures
        ({
            let without = command_line(GeneratorView { rename: None, ..g }, top_dir);
            let k = pair_count(g.config_file) + pair_count(g.incdir) + 2 * g.macros.len()
                + pair_count(g.top);
            &&& k <= without.len()
            &&& command_line(GeneratorView { rename: Some(name), ..g }, top_dir)
                == without.subrange(0, k) + seq!["--rename"@, name] + without.subrange(
                k,
                without.len() as int,
            )
        }),
{
    lemma_macro_args_pairs(g.macros);
    let g1 = GeneratorView { rename: Some(name), ..g };
    let g0 = GeneratorView { rename: None, ..g };
    let k = pair_count(g.config_file) + pair_count(g.incdir) + 2 * g.macros.len() + pair_count(g.top);
    let x = seq!["--rename"@, name];
    lemma_command_line_split(g1, top_dir);
    lemma_command_line_split(g0, top_dir);
    assert(tail_args(g1, top_dir) == tail_args(g0, top_dir));
    let h0 = head_args(g0);
    assert(head_args(g1) =~= h0.subrange(0, k) + x + h0.subrange(k, h0.len() as int));
    lemma_insert_then_append(h0, head_args(g1), tail_args(g0, top_dir), x, k);
}

/// A parameter set after the others is passed as `-D` and `name=value`,
/// right after the other parameters; the rest is as without it.
#[verifier::rlimit(100)]
pub proof fn lemma_command_line_parameter(
    g: GeneratorView,
    top_dir: Seq<char>,
    name: Seq<char>,
    value: Seq<char>,
)
    ensures
        ({
            let without = command_line(g, top_dir);
            let k = pair_count(g.config_file) + pair_count(g.incdir) + 2 * g.macros.len()
                + pair_count(g.top) + pair_count(g.rename) + 2 * g.parameters.len();
            &&& k <= without.len()
            &&& command_line(
                GeneratorView { parameters: g.parameters.push((name, value)), ..g },
                top_dir,
            ) == without.subrange(0, k) + seq!["-D"@, name + "="@ + value] + without.subrange(
                k,
                without.len() as int,
            )
        }),
{
    lemma_macro_args_pairs(g.macros);
    lemma_parameter_args_pairs(g.parameters);
    assert(g.parameters.push((name, value)).drop_last() =~= g.parameters);
    let g1 = GeneratorView { parameters: g.parameters.push((name, value)), ..g };
    let g0 = g;
    let k = pair_count(g.config_file) + pair_count(g.incdir) + 2 * g.macros.len() + pair_count(g.top) + pair_count(g.rename) + 2 * g.parameters.len();
    let x = seq!["-D"@, name + "="@ + value];
    lemma_command_line_split(g1, top_dir);
    lemma_command_line_split(g0, top_dir);
    assert(tail_args(g1, top_dir) == tail_args(g0, top_dir));
    let h0 = head_args(g0);
    assert(head_args(g1) =~= h0.subrange(0, k) + x + h0.subrange(k, h0.len() as int));
    lemma_insert_then_append(h0, head_args(g1), tail_args(g0, top_dir), x, k);
}

/// The output directory is passed as `-o` and `top_dir`, right after the
/// parameters.
pub proof fn lemma_command_line_output(g: GeneratorView, top_dir: Seq<char>)
    ensures
        ({
            let c = command_line(g, top_dir);
            let k = pair_count(g.config_file) + pair_count(g.incdir) + 2 * g.macros.len()
                + pair_count(g.top) + pair_count(g.rename) + 2 * g.parameters.len();
            &&& k + 2 <= c.len()
            &&& c[k] == "-o"@
            &&& c[k + 1] == top_dir
        }),
{
    lemma_macro_args_pairs(g.macros);
    lemma_parameter_args_pairs(g.parameters);
}

/// Overwriting is asked for by `--force`, right after the output
/// directory; the rest is as without it.
#[verifier::rlimit(100)]
pub proof fn lemma_command_line_force(g: GeneratorView, top_dir: Seq<char>)
    ensures
        ({
            let without = command_line(GeneratorView { force: false, ..g }, top_dir);
            let k = pair_count(g.config_file) + pair_count(g.incdir) + 2 * g.macros.len()
                + pair_count(g.top) + pair_count(g.rename) + 2 * g.parameters.len() + 2;
            &&& k <= without.len()
            &&& command_line(GeneratorView { force: true, ..g }, top_dir) == without.subrange(0, k)
                + seq!["--force"@] + without.subrange(k, without.len() as int)
        }),
{
    lemma_macro_args_pairs(g.macros);
    lemma_parameter_args_pairs(g.parameters);
    let without = command_line(GeneratorView { force: false, ..g }, top_dir);
    let k = pair_count(g.config_file) + pair_count(g.incdir) + 2 * g.macros.len() + pair_count(
        g.top,
    ) + pair_count(g.rename) + 2 * g.parameters.len() + 2;
    assert(command_line(GeneratorView { force: true, ..g }, top_dir) =~= without.subrange(0, k)
        + seq!["--force"@] + without.subrange(k, without.len() as int));
}

/// Formatting is asked for by `--fmt`, right after `--force` where that is
/// passed, whatever overwriting is set to; the rest is as without it.
#[verifier::rlimit(100)]
pub proof fn lemma_command_line_fmt(g: GeneratorView, top_dir: Seq<char>)
    ensures
        ({
            let without = command_line(GeneratorView { fmt: false, ..g }, top_dir);
            let k = pair_count(g.config_file) + pair_count(g.incdir) + 2 * g.macros.len()
                + pair_count(g.top) + pair_count(g.rename) + 2 * g.parameters.len() + 2 + (if g.force {
                1int
            } else {
                0int
            });
            &&& k <= without.len()
            &&& command_line(GeneratorView { fmt: true, ..g }, top_dir) == without.subrange(0, k)
                + seq!["--fmt"@] + without.subrange(k, without.len() as int)
        }),
{
    lemma_macro_args_pairs(g.macros);
    lemma_parameter_args_pairs(g.parameters);
    let without = command_line(GeneratorView { fmt: false, ..g }, top_dir);
    let k = pair_count(g.config_file) + pair_count(g.incdir) + 2 * g.macros.len() + pair_count(
        g.top,
    ) + pair_count(g.rename) + 2 * g.parameters.len() + 2 + (if g.force {
        1int
    } else {
        0int
    });
    assert(command_line(GeneratorView { fmt: true, ..g }, top_dir) =~= without.subrange(0, k)
        + seq!["--fmt"@] + without.subrange(k, without.len() as int));
}

/// The name of an endianness on the command line.
pub open spec fn endian_name(e: Endian) -> Seq<char> {
    match e {
        Endian::Big => "big"@,
        Endian::Little => "little"@,
    }
}

/// A byte endianness is passed as `--byte-endian` and `big` or `little`,
/// right after `--fmt` where that is passed; the rest is as without it.
#[verifier::rlimit(100)]
pub proof fn lemma_command_line_byte_endian(g: GeneratorView, top_dir: Seq<char>, e: Endian)
    ensures
        ({
            let without = command_line(GeneratorView { byte_endian: None, ..g }, top_dir);
            let k = pair_count(g.config_file) + pair_count(g.incdir) + 2 * g.macros.len()
                + pair_count(g.top) + pair_count(g.rename) + 2 * g.parameters.len() + 2 + (if g.force {
                1int
            } else {
                0int
            }) + (if g.fmt {
                1int
            } else {
                0int
            });
            &&& k <= without.len()
            &&& command_line(GeneratorView { byte_endian: Some(e), ..g }, top_dir)
                == without.subrange(0, k) + seq!["--byte-endian"@, endian_name(e)]
                + without.subrange(k, without.len() as int)
        }),
{
    lemma_macro_args_pairs(g.macros);
    lemma_parameter_args_pairs(g.parameters);
    let without = command_line(GeneratorView { byte_endian: None, ..g }, top_dir);
    let k = pair_count(g.config_file) + pair_count(g.incdir) + 2 * g.macros.len() + pair_count(
        g.top,
    ) + pair_count(g.rename) + 2 * g.parameters.len() + 2 + (if g.force {
        1int
    } else {
        0int
    }) + (if g.fmt {
        1int
    } else {
        0int
    });
    assert(command_line(GeneratorView { byte_endian: Some(e), ..g }, top_dir) =~= without.subrange(
        0,
        k,
    ) + seq!["--byte-endian"@, endian_name(e)] + without.subrange(k, without.len() as int));
}

/// A word endianness is passed as `--word-endian` and `big` or `little`,
/// right before the input files; the rest is as without it.
pub proof fn lemma_command_line_word_endian(g: GeneratorView, top_dir: Seq<char>, e: Endian)
    ensures
        ({
            let without = command_line(GeneratorView { word_endian: None, ..g }, top_dir);
            let k = without.len() - g.files.len();
            &&& 0 <= k
            &&& without.subrange(k, without.len() as int) == g.files
            &&& command_line(GeneratorView { word_endian: Some(e), ..g }, top_dir)
                == without.subrange(0, k) + seq!["--word-endian"@, endian_name(e)] + g.files
        }),
{
    let without = command_line(GeneratorView { word_endian: None, ..g }, top_dir);
    let k = without.len() - g.files.len();
    assert(without.subrange(k, without.len() as int) =~= g.files);
    assert(command_line(GeneratorView { word_endian: Some(e), ..g }, top_dir) =~= without.subrange(
        0,
        k,
    ) + seq!["--word-endian"@, endian_name(e)] + g.files);
}

/// The input files come last, in order: one more file adds it at the end.
pub proof fn lemma_command_line_file(g: GeneratorView, top_dir: Seq<char>, file: Seq<char>)
    ensures
        command_line(GeneratorView { files: g.files.push(file), ..g }, top_dir) == command_line(
            g,
            top_dir,
        ).push(file),
{
    assert(command_line(GeneratorView { files: g.files.push(file), ..g }, top_dir) =~= command_line(
        g,
        top_dir,
    ).push(file));
}

/// The watched paths are the input files, in order, then the
/// configuration file and the include directory where they are set:
/// exactly those, each set path among them whatever else is set.
pub proof fn lemma_watched_paths_members(g: GeneratorView)
    ensures
        watched_paths(g).subrange(0, g.files.len() as int) == g.files,
        watched_paths(g).len() == g.files.len() + (if g.config_file is Some {
            1int
        } else {
            0int
        }) + (if g.incdir is Some {
            1int
        } else {
            0int
        }),
        forall|p: Seq<char>|
            #![trigger watched_paths(g).contains(p)]
            watched_paths(g).contains(p) <==> (g.files.contains(p) || g.config_file == Some(p)
                || g.incdir == Some(p)),
{
    let w = watched_paths(g);
    assert(w.subrange(0, g.files.len() as int) =~= g.files);
    assert forall|p: Seq<char>|
        #![trigger watched_paths(g).contains(p)]
        watched_paths(g).contains(p) <==> (g.files.contains(p) || g.config_file == Some(p)
            || g.incdir == Some(p)) by {
        if w.contains(p) {
            let i = choose|i: int| 0 <= i < w.len() && w[i] == p;
            if i < g.files.len() {
                assert(g.files[i] == p);
            } else if g.config_file is Some && i == g.files.len() {
            } else {
            }
        }
        if g.files.contains(p) {
            let i = choose|i: int| 0 <= i < g.files.len() && g.files[i] == p;
            assert(w[i] == p);
        }
        if g.config_file == Some(p) {
            assert(w[g.files.len() as int] == p);
        }
        if g.incdir == Some(p) {
            assert(w[w.len() - 1] == p);
        }
    }
}

} // verus!
