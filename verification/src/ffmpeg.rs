//! The command lines of the programs that encode, capture and decode pictures.
use crate::text;
use crate::video::Quality;
use vstd::prelude::*;

verus! {

/// The places where the program is looked for when it is named without one.
pub open spec fn known_places() -> Seq<Seq<char>> {
    seq!["/opt/homebrew/bin/ffmpeg"@, "/usr/local/bin/ffmpeg"@]
}

/// Those places, in the order in which they are tried.
pub fn places() -> (r: Vec<String>)
    ensures
        text::strings(r@) == known_places(),
{
    let mut list: Vec<String> = Vec::new();
    list.push(String::from_str("/opt/homebrew/bin/ffmpeg"));
    list.push(String::from_str("/usr/local/bin/ffmpeg"));
    assert(text::strings(list@) =~= known_places());
    list
}

/// The program to start, from which of the known places hold a file: another name than the plain
/// one is taken as it is.
pub fn resolve(path: &str, present: &Vec<bool>) -> (r: String)
    requires
        present@.len() == 2,
    ensures
        r@ == (if path@ != "ffmpeg"@ {
            path@
        } else if present@[0] {
            known_places()[0]
        } else if present@[1] {
            known_places()[1]
        } else {
            path@
        }),
{
    if text::same_text(path, "ffmpeg") {
        if present[0] {
            return String::from_str("/opt/homebrew/bin/ffmpeg");
        }
        if present[1] {
            return String::from_str("/usr/local/bin/ffmpeg");
        }
    }
    String::from_str(path)
}

/// A width and a height in words.
pub open spec fn size_text(width: u32, height: u32, between: Seq<char>) -> Seq<char> {
    text::decimal(width as nat) + between + text::decimal(height as nat)
}

fn size(list: &mut Vec<char>, width: u32, height: u32, between: &str)
    ensures
        final(list)@ == old(list)@ + size_text(width, height, between@),
{
    text::write_number(list, width as u64);
    text::write_text(list, between);
    text::write_number(list, height as u64);
    assert(list@ =~= old(list)@ + size_text(width, height, between@));
}

fn number(value: u64) -> (r: String)
    ensures
        r@ == text::decimal(value as nat),
{
    let digits = text::number(value);
    text::string_from(&digits)
}

/// The arguments that every program is given first.
pub open spec fn common_line() -> Seq<Seq<char>> {
    seq![
        "-hide_banner"@,
        "-loglevel"@,
        "error"@,
        "-nostdin"@,
    ]
}

/// The arguments that every program is given first.
pub fn common_arguments() -> (line: Vec<String>)
    ensures
        text::strings(line@) == common_line(),
{
    let mut line: Vec<String> = Vec::new();
    line.push(String::from_str("-hide_banner"));
    line.push(String::from_str("-loglevel"));
    line.push(String::from_str("error"));
    line.push(String::from_str("-nostdin"));
    assert(text::strings(line@) =~= common_line());
    line
}

/// The arguments of the encoder: raw pictures in, a stream of VP8 pictures out, a keyframe every
/// few seconds.
pub open spec fn encoder_line(quality: Quality, keyframe_seconds: u32) -> Seq<Seq<char>> {
    let (width, height) = quality.size();
    seq![
        "-probesize"@,
        "32"@,
        "-analyzeduration"@,
        "0"@,
        "-f"@,
        "rawvideo"@,
        "-pixel_format"@,
        "rgb24"@,
        "-video_size"@,
        size_text(width, height, "x"@),
        "-framerate"@,
        text::decimal(quality.rate() as nat),
        "-i"@,
        "pipe:0"@,
        "-an"@,
        "-c:v"@,
        "libvpx"@,
        "-deadline"@,
        "realtime"@,
        "-cpu-used"@,
        "8"@,
        "-threads"@,
        "2"@,
        "-lag-in-frames"@,
        "0"@,
        "-auto-alt-ref"@,
        "0"@,
        "-g"@,
        text::decimal((quality.rate() * keyframe_seconds) as nat),
        "-b:v"@,
        text::decimal(quality.target() as nat),
        "-pix_fmt"@,
        "yuv420p"@,
        "-flush_packets"@,
        "1"@,
        "-f"@,
        "ivf"@,
        "pipe:1"@,
    ]
}

/// The arguments of the encoder for a preset.
pub fn encoder_arguments(quality: Quality, keyframe_seconds: u32) -> (line: Vec<String>)
    requires
        quality.rate() * keyframe_seconds <= u32::MAX,
    ensures
        text::strings(line@) == encoder_line(quality, keyframe_seconds),
{
    let (width, height): (u32, u32) = quality.dimensions();
    let fps: u32 = quality.fps();
    let mut words: Vec<char> = Vec::new();
    size(&mut words, width, height, "x");
    assert(words@ =~= size_text(width, height, "x"@));
    let mut line: Vec<String> = Vec::new();
    line.push(String::from_str("-probesize"));
    line.push(String::from_str("32"));
    line.push(String::from_str("-analyzeduration"));
    line.push(String::from_str("0"));
    line.push(String::from_str("-f"));
    line.push(String::from_str("rawvideo"));
    line.push(String::from_str("-pixel_format"));
    line.push(String::from_str("rgb24"));
    line.push(String::from_str("-video_size"));
    line.push(text::string_from(&words));
    line.push(String::from_str("-framerate"));
    line.push(number(fps as u64));
    line.push(String::from_str("-i"));
    line.push(String::from_str("pipe:0"));
    line.push(String::from_str("-an"));
    line.push(String::from_str("-c:v"));
    line.push(String::from_str("libvpx"));
    line.push(String::from_str("-deadline"));
    line.push(String::from_str("realtime"));
    line.push(String::from_str("-cpu-used"));
    line.push(String::from_str("8"));
    line.push(String::from_str("-threads"));
    line.push(String::from_str("2"));
    line.push(String::from_str("-lag-in-frames"));
    line.push(String::from_str("0"));
    line.push(String::from_str("-auto-alt-ref"));
    line.push(String::from_str("0"));
    line.push(String::from_str("-g"));
    line.push(number((fps * keyframe_seconds) as u64));
    line.push(String::from_str("-b:v"));
    line.push(number(quality.bitrate() as u64));
    line.push(String::from_str("-pix_fmt"));
    line.push(String::from_str("yuv420p"));
    line.push(String::from_str("-flush_packets"));
    line.push(String::from_str("1"));
    line.push(String::from_str("-f"));
    line.push(String::from_str("ivf"));
    line.push(String::from_str("pipe:1"));
    assert(text::strings(line@) =~= encoder_line(quality, keyframe_seconds));
    line
}

/// The filter that brings a captured picture to a preset's rate and size, and fills up with
/// black what its shape leaves free.
pub open spec fn capture_filter(quality: Quality) -> Seq<char> {
    let (width, height) = quality.size();
    "fps="@ + text::decimal(quality.rate() as nat) + ",scale="@ + size_text(width, height, ":"@)
        + ":force_original_aspect_ratio=decrease,pad="@ + size_text(width, height, ":"@)
        + ":(ow-iw)/2:(oh-ih)/2"@
}

/// The arguments of the program that captures a camera's pictures.
pub open spec fn capture_line(quality: Quality, camera: Seq<char>) -> Seq<Seq<char>> {
    seq![
        "-f"@,
        "avfoundation"@,
        "-framerate"@,
        "30"@,
        "-i"@,
        camera + ":none"@,
        "-an"@,
        "-vf"@,
        capture_filter(quality),
        "-pix_fmt"@,
        "rgb24"@,
        "-threads"@,
        "1"@,
        "-f"@,
        "rawvideo"@,
        "pipe:1"@,
    ]
}

/// The arguments of the program that captures a camera's pictures. The camera chooses a size of
/// its own.
pub fn capture_arguments(quality: Quality, camera: &str) -> (line: Vec<String>)
    ensures
        text::strings(line@) == capture_line(quality, camera@),
{
    let (width, height): (u32, u32) = quality.dimensions();
    let mut filter: Vec<char> = Vec::new();
    text::write_text(&mut filter, "fps=");
    text::write_number(&mut filter, quality.fps() as u64);
    text::write_text(&mut filter, ",scale=");
    size(&mut filter, width, height, ":");
    text::write_text(&mut filter, ":force_original_aspect_ratio=decrease,pad=");
    size(&mut filter, width, height, ":");
    text::write_text(&mut filter, ":(ow-iw)/2:(oh-ih)/2");
    assert(filter@ =~= capture_filter(quality));
    let mut device = text::characters(camera);
    text::write_text(&mut device, ":none");
    let mut line: Vec<String> = Vec::new();
    line.push(String::from_str("-f"));
    line.push(String::from_str("avfoundation"));
    line.push(String::from_str("-framerate"));
    line.push(String::from_str("30"));
    line.push(String::from_str("-i"));
    line.push(text::string_from(&device));
    line.push(String::from_str("-an"));
    line.push(String::from_str("-vf"));
    line.push(text::string_from(&filter));
    line.push(String::from_str("-pix_fmt"));
    line.push(String::from_str("rgb24"));
    line.push(String::from_str("-threads"));
    line.push(String::from_str("1"));
    line.push(String::from_str("-f"));
    line.push(String::from_str("rawvideo"));
    line.push(String::from_str("pipe:1"));
    assert(text::strings(line@) =~= capture_line(quality, camera@));
    line
}

/// The arguments of the decoder: a stream of VP8 pictures in, raw pictures out.
pub open spec fn decoder_line() -> Seq<Seq<char>> {
    seq![
        "-probesize"@,
        "32"@,
        "-analyzeduration"@,
        "0"@,
        "-threads"@,
        "1"@,
        "-f"@,
        "ivf"@,
        "-i"@,
        "pipe:0"@,
        "-an"@,
        "-threads"@,
        "1"@,
        "-f"@,
        "rawvideo"@,
        "-pix_fmt"@,
        "rgb24"@,
        "-fps_mode"@,
        "passthrough"@,
        "-flush_packets"@,
        "1"@,
        "pipe:1"@,
    ]
}

/// The arguments of the decoder.
pub fn decoder_arguments() -> (line: Vec<String>)
    ensures
        text::strings(line@) == decoder_line(),
{
    let mut line: Vec<String> = Vec::new();
    line.push(String::from_str("-probesize"));
    line.push(String::from_str("32"));
    line.push(String::from_str("-analyzeduration"));
    line.push(String::from_str("0"));
    line.push(String::from_str("-threads"));
    line.push(String::from_str("1"));
    line.push(String::from_str("-f"));
    line.push(String::from_str("ivf"));
    line.push(String::from_str("-i"));
    line.push(String::from_str("pipe:0"));
    line.push(String::from_str("-an"));
    line.push(String::from_str("-threads"));
    line.push(String::from_str("1"));
    line.push(String::from_str("-f"));
    line.push(String::from_str("rawvideo"));
    line.push(String::from_str("-pix_fmt"));
    line.push(String::from_str("rgb24"));
    line.push(String::from_str("-fps_mode"));
    line.push(String::from_str("passthrough"));
    line.push(String::from_str("-flush_packets"));
    line.push(String::from_str("1"));
    line.push(String::from_str("pipe:1"));
    assert(text::strings(line@) =~= decoder_line());
    line
}

/// How many bytes a raw picture has.
pub fn picture_bytes(width: u32, height: u32) -> (r: usize)
    requires
        width * height * 3 <= u32::MAX,
    ensures
        r == width * height * 3,
{
    assert(width * height <= width * height * 3) by (nonlinear_arith)
        requires
            width >= 0,
            height >= 0,
    ;
    (width * height * 3) as usize
}

/// Whether a command line holds an option with a value behind it.
pub open spec fn has_option(line: Seq<Seq<char>>, name: Seq<char>, value: Seq<char>) -> bool {
    exists|i: int| 0 <= i < line.len() - 1 && #[trigger] line[i] == name && line[i + 1] == value
}

/// The encoder is told the size and the rate of the preset's pictures and its bits per second, to make a
/// keyframe each time that so many seconds of pictures have gone by, and to read and write the formats
/// that the other side of its pipes speaks.
pub proof fn law_encoder_is_told(quality: Quality, keyframe_seconds: u32)
    ensures
        ({
            let line = encoder_line(quality, keyframe_seconds);
            let (width, height) = quality.size();
            &&& has_option(
                line,
                "-video_size"@,
                text::decimal(width as nat) + "x"@ + text::decimal(height as nat),
            )
            &&& has_option(line, "-framerate"@, text::decimal(quality.rate() as nat))
            &&& has_option(
                line,
                "-g"@,
                text::decimal((quality.rate() * keyframe_seconds) as nat),
            )
            &&& has_option(line, "-b:v"@, text::decimal(quality.target() as nat))
            &&& has_option(line, "-pixel_format"@, "rgb24"@)
            &&& has_option(line, "-c:v"@, "libvpx"@)
            &&& line.last() == "pipe:1"@
            &&& has_option(line.drop_last(), "-f"@, "ivf"@)
        }),
{
    let line = encoder_line(quality, keyframe_seconds);
    assert(line[8] == "-video_size"@);
    assert(line[10] == "-framerate"@);
    assert(line[6] == "-pixel_format"@);
    assert(line[15] == "-c:v"@);
    assert(line[27] == "-g"@);
    assert(line[29] == "-b:v"@);
    assert(line.drop_last()[35] == "-f"@ && line.drop_last()[36] == "ivf"@);
}

/// The capturing program is told the camera, and to bring its pictures to the preset's rate and size.
pub proof fn law_capture_is_told(quality: Quality, camera: Seq<char>)
    ensures
        ({
            let line = capture_line(quality, camera);
            let (width, height) = quality.size();
            let size = text::decimal(width as nat) + ":"@ + text::decimal(height as nat);
            &&& has_option(line, "-i"@, camera + ":none"@)
            &&& has_option(
                line,
                "-vf"@,
                "fps="@ + text::decimal(quality.rate() as nat) + ",scale="@ + size
                    + ":force_original_aspect_ratio=decrease,pad="@ + size
                    + ":(ow-iw)/2:(oh-ih)/2"@,
            )
            &&& has_option(line, "-pix_fmt"@, "rgb24"@)
            &&& line.last() == "pipe:1"@
        }),
{
    let line = capture_line(quality, camera);
    assert(line[4] == "-i"@);
    assert(line[7] == "-vf"@);
    assert(line[9] == "-pix_fmt"@);
}

} // verus!
