//! A typed FFmpeg command line.
//!
//! An argument vector alone does not stop a filename from being read as an
//! option or a URL: a file called `-y.mp4` as an output is parsed as the `-y`
//! flag, and a name with a `scheme:` prefix is opened through that protocol.
//! So option names are written in the source, never derived from a file, and
//! every path is passed through the `file:` protocol, which opens a plain local
//! file whatever the name contains.
use vstd::prelude::*;

verus! {

/// Which sidecar binary a command runs.
#[derive(Debug, Clone, Copy, PartialEq, Eq, Structural)]
pub enum Tool {
    Ffmpeg,
    Ffprobe,
}

/// What is done with the child's standard output.
#[derive(Debug, Clone, Copy, PartialEq, Eq, Structural)]
pub enum Stdout {
    /// Parsed as progress blocks.
    Progress,
    /// Handed to the job's consumer as it arrives.
    Stream,
    /// Collected whole and returned when the process exits.
    Collect,
}

/// A complete, typed invocation of a sidecar binary.
#[derive(Debug)]
pub struct SidecarCommand {
    pub tool: Tool,
    pub args: Vec<String>,
    pub stdout: Stdout,
    /// The media duration progress is measured against, in microseconds.
    pub progress_total: Option<u64>,
}

/// The texts of a list of strings.
pub open spec fn words_of(list: Seq<String>) -> Seq<Seq<char>> {
    Seq::new(list.len(), |i: int| list[i]@)
}

/// A path as an argument: opened as a plain local file.
pub open spec fn file_words(path: Seq<char>) -> Seq<char> {
    "file:"@ + path
}

/// `file:` plus the path, unchanged.
pub fn file_url(path: &str) -> (url: String)
    ensures
        url@ == file_words(path@),
{
    let mut url: String = "file:".to_owned();
    url.append(path);
    url
}

impl SidecarCommand {
    /// The arguments.
    pub open spec fn words(&self) -> Seq<Seq<char>> {
        words_of(self.args@)
    }

    /// `next` is `self` with `words` appended and nothing else changed.
    pub open spec fn grown(&self, next: &SidecarCommand, words: Seq<Seq<char>>) -> bool {
        &&& next.words() == self.words() + words
        &&& next.tool == self.tool
        &&& next.stdout == self.stdout
        &&& next.progress_total == self.progress_total
    }

    /// `ffmpeg`, quiet, never reading the console, never overwriting a file it
    /// was not told it may.
    pub fn ffmpeg() -> (command: SidecarCommand)
        ensures
            command.tool == Tool::Ffmpeg,
            command.words() == seq!["-hide_banner"@, "-nostdin"@, "-n"@],
            command.words().contains("-n"@),
            command.stdout == Stdout::Collect,
            command.progress_total is None,
    {
        let command = SidecarCommand::new(Tool::Ffmpeg).flag("-hide_banner").flag("-nostdin").flag(
            "-n",
        );
        assert(command.words() =~= seq!["-hide_banner"@, "-nostdin"@, "-n"@]);
        assert(command.words()[2] == "-n"@);
        command
    }

    /// `ffprobe`, printing errors only.
    pub fn ffprobe() -> (command: SidecarCommand)
        ensures
            command.tool == Tool::Ffprobe,
            command.words() == seq!["-hide_banner"@],
            command.stdout == Stdout::Collect,
            command.progress_total is None,
    {
        let command = SidecarCommand::new(Tool::Ffprobe).flag("-hide_banner");
        assert(command.words() =~= seq!["-hide_banner"@]);
        command
    }

    fn new(tool: Tool) -> (command: SidecarCommand)
        ensures
            command.tool == tool,
            command.words() == Seq::<Seq<char>>::empty(),
            command.stdout == Stdout::Collect,
            command.progress_total is None,
    {
        let command = SidecarCommand {
            tool,
            args: Vec::new(),
            stdout: Stdout::Collect,
            progress_total: None,
        };
        assert(command.words() =~= Seq::<Seq<char>>::empty());
        command
    }

    fn push(self, word: String) -> (command: SidecarCommand)
        ensures
            self.grown(&command, seq![word@]),
    {
        let mut command = self;
        command.args.push(word);
        assert(command.words() =~= self.words() + seq![word@]);
        command
    }

    /// A bare option such as `-vn` or `-show_streams`.
    pub fn flag(self, name: &'static str) -> (command: SidecarCommand)
        ensures
            self.grown(&command, seq![name@]),
    {
        self.push(name.to_owned())
    }

    /// Several bare options, in order.
    pub fn flags(self, names: &[&'static str]) -> (command: SidecarCommand)
        ensures
            self.grown(&command, Seq::new(names@.len(), |i: int| names@[i]@)),
    {
        let mut command = self;
        let mut i: usize = 0;
        assert(command.words() =~= self.words() + Seq::<Seq<char>>::empty());
        while i < names.len()
            invariant
                i <= names.len(),
                self.grown(&command, Seq::new(i as nat, |i: int| names@[i]@)),
            decreases names.len() - i,
        {
            let ghost before = command.words();
            command = command.flag(names[i]);
            i = i + 1;
            assert(command.words() =~= self.words() + Seq::new(i as nat, |i: int| names@[i]@));
        }
        command
    }

    /// An option and its value: `-c:v copy`, `-read_intervals 10%+20`.
    ///
    /// The value may come from anywhere, because it is always passed as the
    /// argument after a name chosen here. It must not be a path.
    pub fn option(self, name: &'static str, value: &str) -> (command: SidecarCommand)
        ensures
            self.grown(&command, seq![name@, value@]),
    {
        let command = self.push(name.to_owned()).push(value.to_owned());
        assert(command.words() =~= self.words() + seq![name@, value@]);
        command
    }

    /// An input file, opened through the `file:` protocol.
    pub fn input(self, path: &str) -> (command: SidecarCommand)
        ensures
            self.grown(&command, seq!["-i"@, file_words(path@)]),
    {
        let command = self.push("-i".to_owned()).push(file_url(path));
        assert(command.words() =~= self.words() + seq!["-i"@, file_words(path@)]);
        command
    }

    /// Read the input from standard input.
    pub fn stdin_input(self) -> (command: SidecarCommand)
        ensures
            self.grown(&command, seq!["-i"@, "pipe:0"@]),
    {
        self.option("-i", "pipe:0")
    }

    /// Synthetic input from a `lavfi` graph, never with user data.
    pub fn lavfi_input(self, graph: &str) -> (command: SidecarCommand)
        ensures
            self.grown(&command, seq!["-f"@, "lavfi"@, "-i"@, graph@]),
    {
        let command = self.option("-f", "lavfi").option("-i", graph);
        assert(command.words() =~= self.words() + seq!["-f"@, "lavfi"@, "-i"@, graph@]);
        command
    }

    /// Write the output to a file, through the `file:` protocol.
    pub fn output_file(self, path: &str) -> (command: SidecarCommand)
        ensures
            self.grown(&command, seq![file_words(path@)]),
    {
        self.push(file_url(path))
    }

    /// Write the output to standard output, to be consumed as it arrives.
    pub fn output_stdout(self) -> (command: SidecarCommand)
        ensures
            command.words() == self.words().push("pipe:1"@),
            command.tool == self.tool,
            command.stdout == Stdout::Stream,
            command.progress_total == self.progress_total,
    {
        let mut command = self.push("pipe:1".to_owned());
        command.stdout = Stdout::Stream;
        assert(command.words() =~= self.words().push("pipe:1"@));
        command
    }

    /// Discard the output.
    pub fn output_null(self) -> (command: SidecarCommand)
        ensures
            self.grown(&command, seq!["-f"@, "null"@, "-"@]),
    {
        let command = self.option("-f", "null").push("-".to_owned());
        assert(command.words() =~= self.words() + seq!["-f"@, "null"@, "-"@]);
        command
    }

    /// Stream standard output to the job's consumer.
    pub fn stream_stdout(self) -> (command: SidecarCommand)
        ensures
            command.words() == self.words(),
            command.tool == self.tool,
            command.stdout == Stdout::Stream,
            command.progress_total == self.progress_total,
    {
        let mut command = self;
        command.stdout = Stdout::Stream;
        command
    }

    /// Report machine-readable progress on standard output, measured against
    /// `total` microseconds of media. Placed before everything else: it is a
    /// global option and must precede the first input.
    pub fn report_progress(self, total: u64) -> (command: SidecarCommand)
        ensures
            command.words() == seq!["-progress"@, "pipe:1"@, "-nostats"@] + self.words(),
            command.tool == self.tool,
            command.stdout == Stdout::Progress,
            command.progress_total == Some(total),
    {
        let mut args: Vec<String> = Vec::new();
        args.push("-progress".to_owned());
        args.push("pipe:1".to_owned());
        args.push("-nostats".to_owned());
        let mut command = self;
        args.append(&mut command.args);
        command.args = args;
        command.stdout = Stdout::Progress;
        command.progress_total = Some(total);
        assert(command.words() =~= seq!["-progress"@, "pipe:1"@, "-nostats"@] + self.words());
        command
    }

    /// The command as a person would read it in an error report. For display
    /// only: nothing ever executes this text.
    pub fn text(&self) -> (text: String)
        ensures
            text@ == tool_word(self.tool) + shown(self.words()),
    {
        let mut text: String = match self.tool {
            Tool::Ffmpeg => "ffmpeg".to_owned(),
            Tool::Ffprobe => "ffprobe".to_owned(),
        };
        let mut i: usize = 0;
        let ghost words = self.words();
        assert(words.take(0).len() == 0);
        assert(text@ =~= tool_word(self.tool) + shown(words.take(0)));
        while i < self.args.len()
            invariant
                i <= self.args.len(),
                words == self.words(),
                text@ == tool_word(self.tool) + shown(words.take(i as int)),
            decreases self.args.len() - i,
        {
            let ghost before = shown(words.take(i as int));
            push_word(&mut text, self.args[i].as_str());
            assert(words.take(i + 1).drop_last() =~= words.take(i as int));
            assert(words.take(i + 1).last() == self.args@[i as int]@);
            assert(text@ =~= tool_word(self.tool) + (before + shown_word(
                self.args@[i as int]@,
            )));
            i = i + 1;
        }
        assert(words.take(i as int) =~= words);
        text
    }
}

/// The tool's name.
pub open spec fn tool_word(tool: Tool) -> Seq<char> {
    match tool {
        Tool::Ffmpeg => "ffmpeg"@,
        Tool::Ffprobe => "ffprobe"@,
    }
}

/// An argument a reader would not see the bounds of: empty, or with a space
/// or a quotation mark in it.
pub open spec fn needs_quotes(word: Seq<char>) -> bool {
    word.len() == 0 || word.contains(' ') || word.contains('"') || word.contains('\'')
}

/// Quotation marks escaped.
pub open spec fn escaped(word: Seq<char>) -> Seq<char>
    decreases word.len(),
{
    if word.len() == 0 {
        Seq::empty()
    } else if word.last() == '"' {
        escaped(word.drop_last()) + "\\\""@
    } else {
        escaped(word.drop_last()).push(word.last())
    }
}

/// An argument as it is shown, after a space.
pub open spec fn shown_word(word: Seq<char>) -> Seq<char> {
    if needs_quotes(word) {
        " \""@ + escaped(word) + "\""@
    } else {
        " "@ + word
    }
}

/// Arguments as they are shown.
pub open spec fn shown(words: Seq<Seq<char>>) -> Seq<char>
    decreases words.len(),
{
    if words.len() == 0 {
        Seq::empty()
    } else {
        shown(words.drop_last()) + shown_word(words.last())
    }
}

/// Append an argument as it is shown.
fn push_word(text: &mut String, word: &str)
    ensures
        final(text)@ == old(text)@ + shown_word(word@),
{
    let ghost start = text@;
    let chars: Vec<char> = crate::text::characters(word);
    let quoted = chars.len() == 0 || crate::text::position(&chars, ' ') < chars.len()
        || crate::text::position(&chars, '"') < chars.len() || crate::text::position(&chars, '\'')
        < chars.len();
    assert(quoted == needs_quotes(word@));
    if !quoted {
        text.append(" ");
        text.append(word);
        assert(text@ =~= start + (" "@ + word@));
        return;
    }
    text.append(" \"");
    let ghost opened = text@;
    let mut i: usize = 0;
    assert(word@.take(0).len() == 0);
    assert(text@ =~= opened + escaped(word@.take(0)));
    while i < chars.len()
        invariant
            i <= chars.len(),
            chars@ == word@,
            text@ == opened + escaped(word@.take(i as int)),
        decreases chars.len() - i,
    {
        let ghost before = escaped(word@.take(i as int));
        assert(word@.take(i + 1).drop_last() =~= word@.take(i as int));
        if chars[i] == '"' {
            text.append("\\\"");
            assert(text@ =~= opened + (before + "\\\""@));
        } else {
            let piece: &str = word.substring_char(i, i + 1);
            text.append(piece);
            assert(piece@ =~= seq![word@[i as int]]);
            assert(text@ =~= opened + before.push(word@[i as int]));
        }
        i = i + 1;
    }
    assert(word@.take(i as int) =~= word@);
    text.append("\"");
    assert(text@ =~= start + (" \""@ + escaped(word@) + "\""@));
}

/// A path's argument is never an option: it starts with the letter of the
/// protocol, not with a dash, whatever the path is.
pub proof fn a_path_is_never_an_option(path: Seq<char>)
    ensures
        file_words(path).len() >= 5,
        file_words(path)[0] == 'f',
        file_words(path).take(5) == "file:"@,
        file_words(path).skip(5) == path,
{
    reveal_strlit("file:");
    assert(file_words(path).take(5) =~= "file:"@);
    assert(file_words(path).skip(5) =~= path);
}

/// A step that puts arguments before or after those there are loses none.
pub proof fn no_argument_is_lost(
    words: Seq<Seq<char>>,
    front: Seq<Seq<char>>,
    back: Seq<Seq<char>>,
    word: Seq<char>,
)
    requires
        words.contains(word),
    ensures
        (front + words + back).contains(word),
{
    let i = choose|i: int| 0 <= i < words.len() && words[i] == word;
    assert((front + words + back)[front.len() + i] == word);
}

/// An option stands among the arguments with its value behind it.
pub open spec fn says(words: Seq<Seq<char>>, name: Seq<char>, value: Seq<char>) -> bool {
    exists|i: int|
        0 <= i < words.len() - 1 && #[trigger] words[i] == name && words[i + 1] == value
}

/// What an argument list says, a longer one says.
pub proof fn lemma_says(
    words: Seq<Seq<char>>,
    front: Seq<Seq<char>>,
    name: Seq<char>,
    value: Seq<char>,
    back: Seq<Seq<char>>,
)
    requires
        words == front + seq![name, value] + back,
    ensures
        says(words, name, value),
{
    let i = front.len() as int;
    assert(words[i] == name && words[i + 1] == value);
}

/// What an argument list says, a longer one says.
pub proof fn lemma_still_says(
    words: Seq<Seq<char>>,
    front: Seq<Seq<char>>,
    part: Seq<Seq<char>>,
    name: Seq<char>,
    value: Seq<char>,
    back: Seq<Seq<char>>,
)
    requires
        words == front + part + back,
        says(part, name, value),
    ensures
        says(words, name, value),
{
    let i = choose|i: int|
        0 <= i < part.len() - 1 && #[trigger] part[i] == name && part[i + 1] == value;
    assert(words[front.len() + i] == name && words[front.len() + i + 1] == value);
}

} // verus!
