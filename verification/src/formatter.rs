//! Keyframes and decisions as text.

use crate::analysis;
use crate::analysis::{AnalysisResult, AnalysisTarget, AnalyzeOptions, FrameValues};
use crate::cli::{Cli, OutputFormat};
use crate::double::Double;
use crate::error::{SCuiseiError, SCuiseiResult};
use crate::postprocess;
use crate::validation;
use vstd::prelude::*;
use vstd::utf8::*;

verus! {

/// The bytes of a text.
pub open spec fn bytes_of(text: Seq<char>) -> Seq<u8> {
    encode_utf8(text)
}

fn put_text(out: &mut Vec<u8>, text: &str)
    ensures
        final(out)@ == old(out)@ + bytes_of(text@),
{
    let bytes = text.as_bytes();
    out.extend_from_slice(bytes);
    assert(out@ =~= old(out)@ + bytes@);
}

/// A digit as a byte.
pub open spec fn digit_byte(digit: int) -> u8 {
    (48 + digit) as u8
}

/// A number in decimal digits.
pub open spec fn decimal(n: int) -> Seq<u8>
    decreases n,
{
    if n < 10 {
        seq![digit_byte(n)]
    } else {
        decimal(n / 10).push(digit_byte(n % 10))
    }
}

fn put_decimal(out: &mut Vec<u8>, n: usize)
    ensures
        final(out)@ == old(out)@ + decimal(n as int),
    decreases n,
{
    if n >= 10 {
        put_decimal(out, n / 10);
    }
    out.push(48 + (n % 10) as u8);
    assert(out@ =~= old(out)@ + decimal(n as int));
}

/// Numbers with commas between them.
pub open spec fn comma_separated(keyframes: Seq<usize>) -> Seq<u8>
    decreases keyframes.len(),
{
    if keyframes.len() == 0 {
        Seq::empty()
    } else if keyframes.len() == 1 {
        decimal(keyframes[0] as int)
    } else {
        comma_separated(keyframes.drop_last()) + bytes_of(","@) + decimal(keyframes.last() as int)
    }
}

/// Appends the keyframes, with commas between them, and a newline.
pub fn write_frames_csv(writer: &mut Vec<u8>, keyframes: &[usize])
    ensures
        final(writer)@ == old(writer)@ + comma_separated(keyframes@) + bytes_of("\n"@),
{
    let ghost before = writer@;
    let mut i: usize = 0;
    assert(keyframes@.take(0) =~= Seq::<usize>::empty());
    assert(writer@ =~= before + comma_separated(keyframes@.take(0)));
    while i < keyframes.len()
        invariant
            i <= keyframes@.len(),
            writer@ == before + comma_separated(keyframes@.take(i as int)),
        decreases keyframes@.len() - i,
    {
        let ghost so_far = comma_separated(keyframes@.take(i as int));
        if i > 0 {
            put_text(writer, ",");
        }
        put_decimal(writer, keyframes[i]);
        i = i + 1;
        proof {
            let longer = keyframes@.take(i as int);
            assert(longer.drop_last() =~= keyframes@.take(i - 1));
            assert(longer.last() == keyframes@[i - 1]);
            if i == 1 {
                assert(so_far =~= Seq::<u8>::empty());
            }
            assert(writer@ =~= before + comma_separated(longer));
        }
    }
    assert(keyframes@.take(keyframes@.len() as int) =~= keyframes@);
    put_text(writer, "\n");
}

/// One line for each keyframe.
pub open spec fn agi_lines(keyframes: Seq<usize>) -> Seq<u8>
    decreases keyframes.len(),
{
    if keyframes.len() == 0 {
        Seq::empty()
    } else {
        agi_lines(keyframes.drop_last()) + decimal(keyframes.last() as int) + bytes_of(" I -1\n"@)
    }
}

/// Appends the keyframes in the AGI keyframe format, version 1.
pub fn write_agi(writer: &mut Vec<u8>, keyframes: &[usize])
    ensures
        final(writer)@ == old(writer)@ + bytes_of("# keyframe format v1\nfps 0\n\n"@) + agi_lines(
            keyframes@,
        ),
{
    put_text(writer, "# keyframe format v1\nfps 0\n\n");
    let ghost before = writer@;
    let mut i: usize = 0;
    assert(keyframes@.take(0) =~= Seq::<usize>::empty());
    assert(writer@ =~= before + agi_lines(keyframes@.take(0)));
    while i < keyframes.len()
        invariant
            i <= keyframes@.len(),
            writer@ == before + agi_lines(keyframes@.take(i as int)),
        decreases keyframes@.len() - i,
    {
        put_decimal(writer, keyframes[i]);
        put_text(writer, " I -1\n");
        i = i + 1;
        proof {
            let longer = keyframes@.take(i as int);
            assert(longer.drop_last() =~= keyframes@.take(i - 1));
            assert(longer.last() == keyframes@[i - 1]);
            assert(writer@ =~= before + agi_lines(longer));
        }
    }
    assert(keyframes@.take(keyframes@.len() as int) =~= keyframes@);
}

/// The head of a pass log.
pub open spec fn pass_header(version: Seq<char>) -> Seq<u8> {
    bytes_of("# XviD 2pass stat file (core version scuisei-rs "@) + bytes_of(version) + bytes_of(
        ")\n"@,
    ) + bytes_of("# Please do not modify this file\n\n"@)
}

/// The line of one frame in a pass log.
pub open spec fn pass_line(is_cut: bool) -> Seq<u8> {
    if is_cut {
        seq![105u8, 10u8]
    } else {
        seq![112u8, 10u8]
    }
}

/// Writes a pass log into a buffer, head first.
pub struct ScxvidPassFormatter {
    written: Vec<u8>,
    wrote_header: bool,
}

impl ScxvidPassFormatter {
    pub closed spec fn written(self) -> Seq<u8> {
        self.written@
    }

    pub closed spec fn wrote_header(self) -> bool {
        self.wrote_header
    }

    /// A formatter that has written the head.
    pub fn new(version: &str) -> (r: ScxvidPassFormatter)
        ensures
            r.written() == pass_header(version@),
            r.wrote_header(),
    {
        let mut this = ScxvidPassFormatter { written: Vec::new(), wrote_header: false };
        this.write_header(version);
        assert(this.written@ =~= pass_header(version@));
        this
    }

    /// Writes the head, once.
    fn write_header(&mut self, version: &str)
        ensures
            final(self).wrote_header(),
            final(self).written() == if old(self).wrote_header() {
                old(self).written()
            } else {
                old(self).written() + pass_header(version@)
            },
    {
        if self.wrote_header {
            return;
        }
        put_text(&mut self.written, "# XviD 2pass stat file (core version scuisei-rs ");
        put_text(&mut self.written, version);
        put_text(&mut self.written, ")\n");
        put_text(&mut self.written, "# Please do not modify this file\n\n");
        self.wrote_header = true;
        assert(self.written@ =~= old(self).written@ + pass_header(version@));
    }

    /// The first frame always starts a scene.
    pub fn write_first_frame(&mut self)
        ensures
            final(self).wrote_header() == old(self).wrote_header(),
            final(self).written() == old(self).written() + pass_line(true),
    {
        self.write_frame(true)
    }

    pub fn write_frame(&mut self, is_cut: bool)
        ensures
            final(self).wrote_header() == old(self).wrote_header(),
            final(self).written() == old(self).written() + pass_line(is_cut),
    {
        let ch: u8 = if is_cut {
            105
        } else {
            112
        };
        self.written.push(ch);
        self.written.push(10);
        assert(self.written@ =~= old(self).written@ + pass_line(is_cut));
    }

    /// All that was written.
    pub fn into_bytes(self) -> (r: Vec<u8>)
        ensures
            r@ == self.written(),
    {
        self.written
    }
}

/// One line for each of the first `n` frames; the first frame counts as a cut.
pub open spec fn pass_lines(pass_decisions: Seq<bool>, n: int) -> Seq<u8>
    decreases n,
{
    if n <= 0 {
        Seq::empty()
    } else {
        pass_lines(pass_decisions, n - 1) + pass_line(n == 1 || pass_decisions[n - 1])
    }
}

/// Appends a pass log.
pub fn write_pass_log(writer: &mut Vec<u8>, pass_decisions: &[bool], version: &str)
    ensures
        final(writer)@ == old(writer)@ + pass_header(version@) + pass_lines(
            pass_decisions@,
            pass_decisions@.len() as int,
        ),
{
    let mut formatter = ScxvidPassFormatter::new(version);
    let ghost header = formatter.written();
    let mut i: usize = 0;
    assert(formatter.written() =~= header + pass_lines(pass_decisions@, 0));
    while i < pass_decisions.len()
        invariant
            i <= pass_decisions@.len(),
            formatter.written() == header + pass_lines(pass_decisions@, i as int),
        decreases pass_decisions@.len() - i,
    {
        if i == 0 {
            formatter.write_first_frame();
        } else {
            formatter.write_frame(pass_decisions[i]);
        }
        i = i + 1;
        assert(formatter.written() =~= header + pass_lines(pass_decisions@, i as int));
    }
    let bytes = formatter.into_bytes();
    writer.extend_from_slice(bytes.as_slice());
    assert(writer@ =~= old(writer)@ + header + pass_lines(
        pass_decisions@,
        pass_decisions@.len() as int,
    ));
}

/// What is written in the given format.
pub open spec fn rendered(
    format: OutputFormat,
    keyframes: Seq<usize>,
    pass_decisions: Seq<bool>,
    version: Seq<char>,
) -> Seq<u8> {
    match format {
        OutputFormat::Agi => bytes_of("# keyframe format v1\nfps 0\n\n"@) + agi_lines(keyframes),
        OutputFormat::Xvid => pass_header(version) + pass_lines(
            pass_decisions,
            pass_decisions.len() as int,
        ),
        OutputFormat::Frames => comma_separated(keyframes) + bytes_of("\n"@),
    }
}

/// The output of a run in the given format.
pub fn render(
    format: OutputFormat,
    keyframes: &[usize],
    pass_decisions: &[bool],
    version: &str,
) -> (r: Vec<u8>)
    ensures
        r@ == rendered(format, keyframes@, pass_decisions@, version@),
{
    let mut out: Vec<u8> = Vec::new();
    match format {
        OutputFormat::Agi => write_agi(&mut out, keyframes),
        OutputFormat::Xvid => write_pass_log(&mut out, pass_decisions, version),
        OutputFormat::Frames => write_frames_csv(&mut out, keyframes),
    }
    assert(out@ =~= rendered(format, keyframes@, pass_decisions@, version@));
    out
}

/// `out` is what a command writes after an analysis: the result in its format, or nothing but the
/// error.
pub open spec fn written(
    out: SCuiseiResult<Vec<u8>>,
    format: OutputFormat,
    outcome: SCuiseiResult<AnalysisResult>,
    version: Seq<char>,
) -> bool {
    match outcome {
        Ok(result) => out matches Ok(bytes) && bytes@ == rendered(
            format,
            result.keyframes@,
            result.pass_decisions@,
            version,
        ),
        Err(error) => out == Err::<Vec<u8>, SCuiseiError>(error),
    }
}

/// What a command writes in the given format, once its analysis has come to an end.
pub fn command_output(
    format: OutputFormat,
    outcome: SCuiseiResult<AnalysisResult>,
    version: &str,
) -> (r: SCuiseiResult<Vec<u8>>)
    ensures
        written(r, format, outcome, version@),
{
    match outcome {
        Ok(result) => Ok(
            render(
                format,
                result.keyframes.as_slice(),
                result.pass_decisions.as_slice(),
                version,
            ),
        ),
        Err(error) => Err(error),
    }
}

/// A command, which analyses no more than its format needs, writes what a full analysis of the
/// same input finds, or fails with the same error and writes nothing.
pub proof fn command_agrees_with_full_analysis(
    cli: Cli,
    dump_scores: bool,
    decoded: SCuiseiResult<()>,
    frames: Seq<(analysis::Frame, FrameValues)>,
    blended: Seq<Double>,
    full: SCuiseiResult<AnalysisResult>,
    own: SCuiseiResult<AnalysisResult>,
    version: Seq<char>,
    out: SCuiseiResult<Vec<u8>>,
)
    requires
        analysis::comes_to(
            full,
            AnalyzeOptions::of_cli(cli, dump_scores),
            AnalysisTarget::Both,
            decoded,
            frames,
            blended,
        ),
        analysis::comes_to(
            own,
            AnalyzeOptions::of_cli(cli, dump_scores),
            AnalysisTarget::of_format(cli.format),
            decoded,
            frames,
            blended,
        ),
        written(out, cli.format, own, version),
    ensures
        match full {
            Ok(result) => out matches Ok(bytes) && bytes@ == rendered(
                cli.format,
                result.keyframes@,
                result.pass_decisions@,
                version,
            ),
            Err(error) => out matches Err(other) && other.same_as(error),
        },
{
    let options = AnalyzeOptions::of_cli(cli, dump_scores);
    if cli.format is Xvid {
        let checks = options.checks(AnalysisTarget::PassDecisions);
        let rest = options.postprocess_config.checks();
        analysis::pass_analysis_agrees(
            options,
            options.postprocess_config,
            decoded,
            frames,
            blended,
            full,
            own,
            own,
        );
        postprocess::defaults_are_valid();
        if full is Err {
            let error = full->Err_0;
            if validation::passes(Err(error), options.checks(AnalysisTarget::Both)) {
                validation::lemma_fails_before(Err(error), checks, rest);
            } else {
                validation::lemma_fails_before(Ok(()), checks, rest);
            }
            analysis::lemma_refusals_agree(full, own, checks, decoded);
        }
    } else {
        analysis::keyframe_analysis_agrees(options, decoded, frames, blended, full, own);
    }
}

/// A text with keyframes in it, read from its start up to some byte.
pub struct Reading {
    pub numbers: Seq<int>,
    pub current: Option<int>,
    /// The rest of the line holds no keyframe.
    pub hidden: bool,
}

impl Reading {
    pub open spec fn start() -> Reading {
        Reading { numbers: Seq::empty(), current: None, hidden: false }
    }

    pub open spec fn close(self, hidden: bool) -> Reading {
        Reading {
            numbers: match self.current {
                Some(n) => self.numbers.push(n),
                None => self.numbers,
            },
            current: None,
            hidden,
        }
    }

    /// Reads one byte more: digits make up numbers, a comma or the end of the line ends them, and
    /// anything else hides what follows on its line.
    pub open spec fn step(self, byte: u8) -> Reading {
        if byte == 10 {
            self.close(false)
        } else if self.hidden {
            self
        } else if 48 <= byte <= 57 {
            Reading {
                current: Some(
                    match self.current {
                        Some(n) => n * 10 + (byte - 48),
                        None => byte - 48,
                    },
                ),
                ..self
            }
        } else {
            self.close(byte != 44)
        }
    }

    pub open spec fn of(bytes: Seq<u8>) -> Reading
        decreases bytes.len(),
    {
        if bytes.len() == 0 {
            Reading::start()
        } else {
            Reading::of(bytes.drop_last()).step(bytes.last())
        }
    }

    /// All numbers have been read to their end.
    pub open spec fn settled(self, keyframes: Seq<usize>) -> bool {
        &&& self.current is None
        &&& !self.hidden
        &&& self.numbers == keyframes.map_values(|frame: usize| frame as int)
    }
}

proof fn lemma_read_one_more(bytes: Seq<u8>, byte: u8)
    ensures
        Reading::of(bytes.push(byte)) == Reading::of(bytes).step(byte),
{
    assert(bytes.push(byte).drop_last() =~= bytes);
}

proof fn lemma_read_decimal(bytes: Seq<u8>, n: int)
    requires
        0 <= n,
        Reading::of(bytes).current is None,
        !Reading::of(bytes).hidden,
    ensures
        Reading::of(bytes + decimal(n)) == (Reading {
            current: Some(n),
            ..Reading::of(bytes)
        }),
    decreases n,
{
    if n < 10 {
        lemma_read_one_more(bytes, digit_byte(n));
        assert(bytes + decimal(n) =~= bytes.push(digit_byte(n)));
    } else {
        let shorter = bytes + decimal(n / 10);
        lemma_read_decimal(bytes, n / 10);
        lemma_read_one_more(shorter, digit_byte(n % 10));
        assert(bytes + decimal(n) =~= shorter.push(digit_byte(n % 10)));
    }
}

proof fn lemma_literals()
    ensures
        bytes_of(","@) == seq![44u8],
        bytes_of("\n"@) == seq![10u8],
        bytes_of(" I -1\n"@) == seq![32u8, 73u8, 32u8, 45u8, 49u8, 10u8],
        bytes_of("# keyframe format v1\nfps 0\n\n"@) == seq![
            35u8, 32u8, 107u8, 101u8, 121u8, 102u8, 114u8, 97u8, 109u8, 101u8,
            32u8, 102u8, 111u8, 114u8, 109u8, 97u8, 116u8, 32u8, 118u8, 49u8,
            10u8, 102u8, 112u8, 115u8, 32u8, 48u8, 10u8, 10u8,
        ],
{
    reveal_strlit(",");
    reveal_strlit("\n");
    reveal_strlit(" I -1\n");
    reveal_strlit("# keyframe format v1\nfps 0\n\n");
    is_ascii_chars_encode_utf8(","@);
    is_ascii_chars_encode_utf8("\n"@);
    is_ascii_chars_encode_utf8(" I -1\n"@);
    is_ascii_chars_encode_utf8("# keyframe format v1\nfps 0\n\n"@);
}

proof fn lemma_read_list(keyframes: Seq<usize>)
    requires
        keyframes.len() > 0,
    ensures
        ({
            let reading = Reading::of(comma_separated(keyframes));
            &&& reading.current == Some(keyframes.last() as int)
            &&& !reading.hidden
            &&& reading.numbers == keyframes.drop_last().map_values(|frame: usize| frame as int)
        }),
    decreases keyframes.len(),
{
    lemma_literals();
    let last = keyframes.last() as int;
    if keyframes.len() == 1 {
        lemma_read_decimal(Seq::empty(), last);
        assert(Seq::<u8>::empty() + decimal(last) =~= comma_separated(keyframes));
        assert(keyframes.drop_last().map_values(|frame: usize| frame as int) =~= Seq::<
            int,
        >::empty());
    } else {
        let before = comma_separated(keyframes.drop_last());
        lemma_read_list(keyframes.drop_last());
        lemma_read_one_more(before, 44);
        lemma_read_decimal(before.push(44), last);
        assert(before.push(44) + decimal(last) =~= comma_separated(keyframes));
        assert(keyframes.drop_last().map_values(|frame: usize| frame as int)
            =~= keyframes.drop_last().drop_last().map_values(|frame: usize| frame as int).push(
            keyframes.drop_last().last() as int,
        ));
    }
}

/// The keyframes can be read back from the comma-separated list.
pub proof fn list_can_be_read_back(keyframes: Seq<usize>)
    ensures
        Reading::of(comma_separated(keyframes) + bytes_of("\n"@)).settled(keyframes),
{
    lemma_literals();
    let list = comma_separated(keyframes);
    lemma_read_one_more(list, 10);
    assert(list + bytes_of("\n"@) =~= list.push(10));
    if keyframes.len() > 0 {
        lemma_read_list(keyframes);
        assert(keyframes.map_values(|frame: usize| frame as int)
            =~= keyframes.drop_last().map_values(|frame: usize| frame as int).push(
            keyframes.last() as int,
        ));
    } else {
        assert(keyframes.map_values(|frame: usize| frame as int) =~= Seq::<int>::empty());
    }
}

proof fn lemma_read_agi_header()
    ensures
        Reading::of(bytes_of("# keyframe format v1\nfps 0\n\n"@)) == Reading::start(),
{
    lemma_literals();
    let header = bytes_of("# keyframe format v1\nfps 0\n\n"@);
    lemma_read_hidden(header, 20);
    assert(header.take(21).drop_last() =~= header.take(20));
    assert(header.take(22).drop_last() =~= header.take(21));
    assert(header.take(23).drop_last() =~= header.take(22));
    assert(header.take(24).drop_last() =~= header.take(23));
    assert(header.take(25).drop_last() =~= header.take(24));
    assert(header.take(26).drop_last() =~= header.take(25));
    assert(header.take(27).drop_last() =~= header.take(26));
    assert(header.take(28).drop_last() =~= header.take(27));
    assert(header.take(28) =~= header);
    reveal_with_fuel(Reading::of, 9);
}

/// Nothing is read on a line that starts with something other than a number.
proof fn lemma_read_hidden(bytes: Seq<u8>, n: int)
    requires
        1 <= n <= bytes.len(),
        bytes[0] == 35,
        forall|i: int| 0 <= i < n ==> #[trigger] bytes[i] != 10,
    ensures
        Reading::of(bytes.take(n)) == (Reading { hidden: true, ..Reading::start() }),
    decreases n,
{
    assert(bytes.take(n).drop_last() =~= bytes.take(n - 1));
    if n == 1 {
        assert(bytes.take(0) =~= Seq::<u8>::empty());
        reveal_with_fuel(Reading::of, 2);
    } else {
        lemma_read_hidden(bytes, n - 1);
    }
}

/// The keyframes can be read back from an AGI file.
pub proof fn agi_can_be_read_back(keyframes: Seq<usize>)
    ensures
        Reading::of(
            bytes_of("# keyframe format v1\nfps 0\n\n"@) + agi_lines(keyframes),
        ).settled(keyframes),
    decreases keyframes.len(),
{
    let header = bytes_of("# keyframe format v1\nfps 0\n\n"@);
    if keyframes.len() == 0 {
        lemma_read_agi_header();
        assert(header + agi_lines(keyframes) =~= header);
        assert(keyframes.map_values(|frame: usize| frame as int) =~= Seq::<int>::empty());
    } else {
        lemma_literals();
        let last = keyframes.last() as int;
        let before = header + agi_lines(keyframes.drop_last());
        agi_can_be_read_back(keyframes.drop_last());
        lemma_read_decimal(before, last);
        let line = before + decimal(last);
        lemma_read_one_more(line, 32);
        lemma_read_one_more(line.push(32), 73);
        lemma_read_one_more(line.push(32).push(73), 32);
        lemma_read_one_more(line.push(32).push(73).push(32), 45);
        lemma_read_one_more(line.push(32).push(73).push(32).push(45), 49);
        lemma_read_one_more(line.push(32).push(73).push(32).push(45).push(49), 10);
        assert(header + agi_lines(keyframes) =~= line.push(32).push(73).push(32).push(45).push(
            49,
        ).push(10));
        assert(keyframes.map_values(|frame: usize| frame as int)
            =~= keyframes.drop_last().map_values(|frame: usize| frame as int).push(last));
    }
}

/// A pass log has one line for each frame: `i` for the first frame and for each cut, else `p`.
pub proof fn pass_log_lists_every_frame(pass_decisions: Seq<bool>, n: int, i: int)
    requires
        0 <= i < n <= pass_decisions.len(),
    ensures
        pass_lines(pass_decisions, n).len() == 2 * n,
        pass_lines(pass_decisions, n)[2 * i] == if i == 0 || pass_decisions[i] {
            105u8
        } else {
            112u8
        },
        pass_lines(pass_decisions, n)[2 * i + 1] == 10,
    decreases n,
{
    let shorter = pass_lines(pass_decisions, n - 1);
    let last = pass_line(n == 1 || pass_decisions[n - 1]);
    if i < n - 1 {
        pass_log_lists_every_frame(pass_decisions, n - 1, i);
    } else if n > 1 {
        pass_log_lists_every_frame(pass_decisions, n - 1, 0);
    } else {
        assert(shorter =~= Seq::<u8>::empty());
    }
    assert(pass_lines(pass_decisions, n) == shorter + last);
    if i == n - 1 {
        assert((shorter + last)[2 * i] == last[0]);
        assert((shorter + last)[2 * i + 1] == last[1]);
    }
}

/// A number is written in as few digits as it takes: the first digit is no zero, unless the
/// number is zero.
pub proof fn numbers_are_written_without_leading_zeros(n: int)
    requires
        0 <= n,
    ensures
        decimal(n).len() > 0,
        n < 10 ==> decimal(n) == seq![(48 + n) as u8],
        n > 0 ==> decimal(n)[0] != 48,
    decreases n,
{
    if n >= 10 {
        numbers_are_written_without_leading_zeros(n / 10);
    }
}

} // verus!
