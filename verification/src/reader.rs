//! Input sources, format sniffing and the tee filter.
use vstd::prelude::*;
use crate::text::str_eq;

verus! {

// ── Input format ────────────────────────────────────────────────────────────

#[derive(Debug, Clone, Copy, PartialEq, Eq, Structural)]
pub enum Format {
    Html,
    Text,
}

// ── Source ──────────────────────────────────────────────────────────────────

/// A single input source (stdin, a file path, or a command to run).
#[derive(Debug, Clone)]
pub enum Source {
    Stdin,
    File(String),
    Command(Vec<String>),
}

/// A source as a mathematical value.
pub enum SourceView {
    Stdin,
    File(Seq<char>),
    Command(Seq<Seq<char>>),
}

pub open spec fn strings_view(v: Seq<String>) -> Seq<Seq<char>> {
    v.map_values(|s: String| s@)
}

impl View for Source {
    type V = SourceView;

    open spec fn view(&self) -> SourceView {
        match self {
            Source::Stdin => SourceView::Stdin,
            Source::File(p) => SourceView::File(p@),
            Source::Command(a) => SourceView::Command(strings_view(a@)),
        }
    }
}

pub open spec fn sources_view(v: Seq<Source>) -> Seq<SourceView> {
    v.map_values(|s: Source| s@)
}

/// The source an argument names: `-` is stdin, anything else a file.
pub open spec fn arg_source(a: Seq<char>) -> SourceView {
    if a == "-"@ {
        SourceView::Stdin
    } else {
        SourceView::File(a)
    }
}

/// The sources named by command-line arguments: in command mode one command
/// made of all the arguments; otherwise stdin when there are none, else one
/// source per argument.
pub open spec fn sources_from_args(args: Seq<Seq<char>>, command_mode: bool) -> Seq<SourceView> {
    if command_mode {
        seq![SourceView::Command(args)]
    } else if args.len() == 0 {
        seq![SourceView::Stdin]
    } else {
        args.map_values(|a: Seq<char>| arg_source(a))
    }
}

/// How arguments name sources: in command mode the single source is the
/// command made of all the arguments, unchanged and in order; otherwise no
/// arguments mean stdin, and each argument is one source in its place,
/// stdin for `-` and the file it names for anything else.
pub proof fn law_sources_from_args(args: Seq<Seq<char>>)
    ensures
        sources_from_args(args, true) == seq![SourceView::Command(args)],
        args.len() == 0 ==> sources_from_args(args, false) == seq![SourceView::Stdin],
        args.len() > 0 ==> sources_from_args(args, false).len() == args.len(),
        forall|i: int| 0 <= i < args.len() ==> (#[trigger] sources_from_args(args, false)[i]
            == if args[i] == "-"@ { SourceView::Stdin } else { SourceView::File(args[i]) }),
{
}

// ── Sniffing ────────────────────────────────────────────────────────────────

/// `u8::is_ascii_whitespace`: space, tab, line feed, form feed, carriage return.
pub open spec fn is_ascii_whitespace(b: u8) -> bool {
    b == 0x20 || b == 0x09 || b == 0x0a || b == 0x0c || b == 0x0d
}

/// The first byte of `s` that is not ASCII whitespace.
pub open spec fn first_non_ws(s: Seq<u8>) -> Option<u8>
    decreases s.len(),
{
    if s.len() == 0 {
        None
    } else if !is_ascii_whitespace(s[0]) {
        Some(s[0])
    } else {
        first_non_ws(s.drop_first())
    }
}

/// HTML exactly when the first non-whitespace byte is `<`.
pub open spec fn sniff_spec(chunk: Seq<u8>) -> Format {
    if first_non_ws(chunk) == Some(0x3cu8) {
        Format::Html
    } else {
        Format::Text
    }
}

/// Peek at the first chunk to determine whether it looks like HTML.
/// Returns `Format::Html` if the first non-whitespace byte is `<`.
pub fn sniff(chunk: &[u8]) -> (r: Format)
    ensures
        r == sniff_spec(chunk@),
{
    let mut i: usize = 0;
    assert(chunk@.skip(0) =~= chunk@);
    while i < chunk.len()
        invariant
            i <= chunk.len(),
            first_non_ws(chunk@) == first_non_ws(chunk@.skip(i as int)),
        decreases chunk.len() - i,
    {
        let b = chunk[i];
        if !(b == 0x20 || b == 0x09 || b == 0x0a || b == 0x0c || b == 0x0d) {
            assert(chunk@.skip(i as int)[0] == b);
            if b == 0x3c {
                return Format::Html;
            } else {
                return Format::Text;
            }
        }
        assert(chunk@.skip(i as int).drop_first() =~= chunk@.skip(i + 1));
        i += 1;
    }
    assert(chunk@.skip(i as int).len() == 0);
    Format::Text
}

/// Byte `i` of `chunk` is `<` and every byte before it is a space, tab,
/// line feed, form feed or carriage return.
pub open spec fn lt_after_blanks(chunk: Seq<u8>, i: int) -> bool {
    &&& 0 <= i < chunk.len()
    &&& chunk[i] == 0x3cu8
    &&& forall|k: int| 0 <= k < i ==> (#[trigger] chunk[k] == 0x20u8 || chunk[k] == 0x09u8
        || chunk[k] == 0x0au8 || chunk[k] == 0x0cu8 || chunk[k] == 0x0du8)
}

/// Sniffing: a chunk is HTML exactly when some byte is `<` and every byte
/// before it is a space, tab, line feed, form feed or carriage return.
pub proof fn law_sniff(chunk: Seq<u8>)
    ensures
        sniff_spec(chunk) == Format::Html <==> exists|i: int| #[trigger] lt_after_blanks(chunk, i),
    decreases chunk.len(),
{
    if chunk.len() > 0 {
        let rest = chunk.drop_first();
        law_sniff(rest);
        if is_ascii_whitespace(chunk[0]) {
            assert(first_non_ws(chunk) == first_non_ws(rest));
            if exists|i: int| #[trigger] lt_after_blanks(chunk, i) {
                let i = choose|i: int| #[trigger] lt_after_blanks(chunk, i);
                assert(i > 0);
                assert(rest[i - 1] == 0x3cu8);
                assert forall|k: int| 0 <= k < i - 1 implies (#[trigger] rest[k] == 0x20u8 || rest[k] == 0x09u8
                    || rest[k] == 0x0au8 || rest[k] == 0x0cu8 || rest[k] == 0x0du8) by {
                    assert(rest[k] == chunk[k + 1]);
                }
                assert(lt_after_blanks(rest, i - 1));
            }
            if sniff_spec(rest) == Format::Html {
                let j = choose|j: int| #[trigger] lt_after_blanks(rest, j);
                assert forall|k: int| 0 <= k < j + 1 implies (#[trigger] chunk[k] == 0x20u8 || chunk[k] == 0x09u8
                    || chunk[k] == 0x0au8 || chunk[k] == 0x0cu8 || chunk[k] == 0x0du8) by {
                    if k > 0 {
                        assert(chunk[k] == rest[k - 1]);
                    }
                }
                assert(chunk[j + 1] == rest[j]);
                assert(lt_after_blanks(chunk, j + 1));
            }
        } else {
            if chunk[0] == 0x3cu8 {
                assert(lt_after_blanks(chunk, 0));
            } else {
                if exists|i: int| #[trigger] lt_after_blanks(chunk, i) {
                    let i = choose|i: int| #[trigger] lt_after_blanks(chunk, i);
                    if i > 0 {
                        assert(chunk[0] == 0x20u8 || chunk[0] == 0x09u8 || chunk[0] == 0x0au8 || chunk[0] == 0x0cu8
                            || chunk[0] == 0x0du8);
                    }
                }
            }
        }
    }
}

// ── Reader ──────────────────────────────────────────────────────────────────

/// ARGF-style multi-source streaming reader.
///
/// Reads from stdin, one or more files, or a child process's stdout.
/// Uses raw `read()` calls (not line-buffered) to enable true streaming.
pub struct Reader {
    sources: Vec<Source>,
    /// Explicit format override; if `None`, sniff from the first chunk.
    forced_format: Option<Format>,
    /// The format detected (or overridden) after the first chunk.
    detected_format: Option<Format>,
}

/// A reader's sources and formats.
pub struct ReaderModel {
    pub sources: Seq<SourceView>,
    pub forced_format: Option<Format>,
    pub detected_format: Option<Format>,
}

impl View for Reader {
    type V = ReaderModel;

    closed spec fn view(&self) -> ReaderModel {
        ReaderModel {
            sources: sources_view(self.sources@),
            forced_format: self.forced_format,
            detected_format: self.detected_format,
        }
    }
}

/// The forced format if any, else the detected one.
pub open spec fn format_spec(m: ReaderModel) -> Option<Format> {
    match m.forced_format {
        Some(f) => Some(f),
        None => m.detected_format,
    }
}

/// What [`Reader::ensure_format`] returns and leaves: the known format if
/// any, else the sniffed one, which is then remembered.
pub open spec fn ensure_format_spec(m: ReaderModel, chunk: Seq<u8>) -> (Format, ReaderModel) {
    match format_spec(m) {
        Some(f) => (f, m),
        None => (sniff_spec(chunk), ReaderModel { detected_format: Some(sniff_spec(chunk)), ..m }),
    }
}

impl Reader {
    pub fn new(sources: Vec<Source>, forced_format: Option<Format>) -> (r: Self)
        ensures
            r@ == (ReaderModel { sources: sources_view(sources@), forced_format, detected_format: None }),
    {
        Self { sources, forced_format, detected_format: None }
    }

    /// Convenience: build sources from CLI args (empty args → stdin).
    /// In command mode (`-c`) treat args as a shell command.
    pub fn from_args(args: &[String], command_mode: bool) -> (r: Self)
        ensures
            r@ == (ReaderModel {
                sources: sources_from_args(strings_view(args@), command_mode),
                forced_format: None,
                detected_format: None,
            }),
    {
        let ghost args_v = strings_view(args@);
        let mut sources: Vec<Source> = Vec::new();
        if command_mode {
            let mut all: Vec<String> = Vec::new();
            let mut i: usize = 0;
            while i < args.len()
                invariant
                    i <= args.len(),
                    all@.len() == i,
                    strings_view(all@) == strings_view(args@).take(i as int),
                decreases args.len() - i,
            {
                let c = args[i].clone();
                assert(c@ == args@[i as int]@);
                let ghost before = all@;
                all.push(c);
                assert(all@ == before.push(c));
                assert forall|k: int| 0 <= k < i + 1 implies #[trigger] strings_view(all@)[k] == strings_view(args@).take(i + 1)[k] by {
                    if k < i {
                        assert(strings_view(before)[k] == strings_view(args@).take(i as int)[k]);
                    }
                }
                assert(strings_view(all@) =~= strings_view(args@).take(i + 1));
                i += 1;
            }
            assert(strings_view(args@).take(args.len() as int) =~= strings_view(args@));
            sources.push(Source::Command(all));
            assert(sources_view(sources@) =~= sources_from_args(args_v, command_mode));
        } else if args.len() == 0 {
            sources.push(Source::Stdin);
            assert(sources_view(sources@) =~= sources_from_args(args_v, command_mode));
        } else {
            let mut i: usize = 0;
            while i < args.len()
                invariant
                    i <= args.len(),
                    sources@.len() == i,
                    !command_mode,
                    sources_view(sources@) == strings_view(args@).take(i as int).map_values(|a: Seq<char>| arg_source(a)),
                decreases args.len() - i,
            {
                let a = &args[i];
                let ghost before = sources@;
                let ghost av = args@[i as int]@;
                assert(a@ == av);
                if str_eq(a.as_str(), "-") {
                    sources.push(Source::Stdin);
                    assert(sources@[i as int]@ == arg_source(av));
                } else {
                    let c = a.clone();
                    sources.push(Source::File(c));
                    assert(sources@[i as int]@ == arg_source(av));
                }
                assert(sources@ == before.push(sources@[i as int]));
                assert forall|k: int| 0 <= k < i + 1 implies #[trigger] sources_view(sources@)[k] == strings_view(args@).take(i + 1).map_values(|a: Seq<char>| arg_source(a))[k] by {
                    if k < i {
                        assert(sources_view(before)[k] == strings_view(args@).take(i as int).map_values(|a: Seq<char>| arg_source(a))[k]);
                    }
                }
                assert(sources_view(sources@) =~= strings_view(args@).take(i + 1).map_values(|a: Seq<char>| arg_source(a)));
                i += 1;
            }
            assert(strings_view(args@).take(args.len() as int) =~= strings_view(args@));
        }
        Self::new(sources, None)
    }

    /// The sources, in reading order.
    pub fn sources(&self) -> (r: &Vec<Source>)
        ensures
            sources_view(r@) == self@.sources,
    {
        &self.sources
    }

    /// The detected (or forced) input format. Only valid after at least one
    /// chunk has been seen (see [`Reader::ensure_format`]).
    pub fn format(&self) -> (r: Option<Format>)
        ensures
            r == format_spec(self@),
    {
        match self.forced_format {
            Some(f) => Some(f),
            None => self.detected_format,
        }
    }

    /// Determine and cache the format, peeking at `chunk` if needed.
    pub fn ensure_format(&mut self, chunk: &[u8]) -> (r: Format)
        ensures
            (r, final(self)@) == ensure_format_spec(old(self)@, chunk@),
    {
        match self.format() {
            Some(f) => f,
            None => {
                let detected = sniff(chunk);
                self.detected_format = Some(detected);
                detected
            },
        }
    }
}

/// The format is decided once: a forced format always wins, and after the
/// first chunk every later chunk gets the same format and changes nothing.
pub proof fn law_format_decided_once(m: ReaderModel, first: Seq<u8>, later: Seq<u8>)
    ensures
        m.forced_format matches Some(f) ==> ensure_format_spec(m, first).0 == f,
        ({
            let (f1, m1) = ensure_format_spec(m, first);
            let (f2, m2) = ensure_format_spec(m1, later);
            f2 == f1 && m2 == m1 && format_spec(m1) == Some(f1)
        }),
{
}

/// `ensure_format` called on each chunk in turn: the formats it returned
/// and the final state.
pub open spec fn ensure_all(m: ReaderModel, chunks: Seq<Seq<u8>>) -> (Seq<Format>, ReaderModel)
    decreases chunks.len(),
{
    if chunks.len() == 0 {
        (Seq::empty(), m)
    } else {
        let (fs, m1) = ensure_all(m, chunks.drop_last());
        let (f, m2) = ensure_format_spec(m1, chunks.last());
        (fs.push(f), m2)
    }
}

/// The format is fixed by the first chunk: for a new reader with forced
/// format `ff`, before any chunk `format()` is `ff`; once chunks have been
/// seen it is the forced format, else the first chunk's sniffed format, and
/// every chunk was handed that same format.
pub proof fn law_format_fixed(sources: Seq<SourceView>, ff: Option<Format>, chunks: Seq<Seq<u8>>)
    ensures
        ({
            let m0 = ReaderModel { sources, forced_format: ff, detected_format: None };
            let (fs, m) = ensure_all(m0, chunks);
            let f = match ff {
                Some(x) => x,
                None => sniff_spec(chunks[0]),
            };
            &&& m.sources == sources
            &&& chunks.len() == 0 ==> format_spec(m) == ff
            &&& chunks.len() > 0 ==> format_spec(m) == Some(f)
            &&& fs.len() == chunks.len()
            &&& forall|i: int| 0 <= i < fs.len() ==> fs[i] == f
        }),
    decreases chunks.len(),
{
    if chunks.len() > 0 {
        let front = chunks.drop_last();
        law_format_fixed(sources, ff, front);
        let m0 = ReaderModel { sources, forced_format: ff, detected_format: None };
        let (fs1, m1) = ensure_all(m0, front);
        if front.len() > 0 {
            assert(front[0] == chunks[0]);
        }
        let (fs, m) = ensure_all(m0, chunks);
        let f = match ff {
            Some(x) => x,
            None => sniff_spec(chunks[0]),
        };
        assert forall|i: int| 0 <= i < fs.len() implies fs[i] == f by {
            if i < fs1.len() {
                assert(fs[i] == fs1[i]);
            }
        }
    }
}

// ── TeeFilter ───────────────────────────────────────────────────────────────

/// Wraps a chunk-producing closure and also hands each chunk to an output's
/// `write_all`. Used in `btee` mode.
pub struct TeeFilter<W> {
    out: W,
    /// The bytes handed to the output's `write_all` so far, in order.
    sent: Ghost<Seq<u8>>,
}

impl<W> TeeFilter<W> {
    /// The output the chunks are copied to.
    pub closed spec fn sink(&self) -> W {
        self.out
    }

    /// Everything handed to the output's `write_all` so far, in order.
    pub closed spec fn sent(&self) -> Seq<u8> {
        self.sent@
    }
}

impl<W: std::io::Write> TeeFilter<W> {
    pub fn new(out: W) -> (r: Self)
        ensures
            r.sink() == out,
            r.sent() == Seq::<u8>::empty(),
    {
        Self { out, sent: Ghost(Seq::empty()) }
    }

    /// `Write::write_all(data)` on the output, its error ignored: `data` is
    /// what the writer is handed, after what it was handed before. What the
    /// writer does with the bytes (and whether the write succeeds) is up to
    /// its own impl and is not stated.
    #[verifier::external_body]
    fn copy_out(&mut self, data: &[u8])
        ensures
            final(self).sent() == old(self).sent() + data@,
    {
        let _ = self.out.write_all(data);
    }

    /// Hand `chunk` to the output's `write_all` (best effort) and return it
    /// unchanged. `sent()` records what the writer was handed, in order.
    pub fn filter<'a>(&mut self, chunk: &'a [u8]) -> (r: &'a [u8])
        ensures
            r@ == chunk@,
            final(self).sent() == old(self).sent() + chunk@,
    {
        self.copy_out(chunk);
        chunk
    }
}

} // verus!
