//! One-off downloads of a single video into a channel's directory, and the
//! description of a video that the download tool reports.
use vstd::prelude::*;

use crate::text::{chars_of, concat, string_of, text_of, trim_chars, trimmed};

verus! {

/// What the download tool reports of a video.
#[derive(Clone, Debug)]
pub struct VideoInfo {
    pub id: String,
    pub title: String,
    pub url: String,
    pub uploader: Option<String>,
    pub upload_date: Option<String>,
}

/// `name` appended to the directory `dir`, as `Path::join` does on Unix: an
/// absolute `name` stands alone; a separator goes between the two unless
/// `dir` is empty or ends in one.
pub open spec fn joined(dir: Seq<char>, name: Seq<char>) -> Seq<char> {
    if name.len() > 0 && name[0] == '/' {
        name
    } else if dir.len() == 0 || dir.last() == '/' {
        dir + name
    } else {
        dir + seq!['/'] + name
    }
}

pub open spec fn name_template() -> Seq<char> {
    "/%(title)s.%(ext)s"@
}

/// Downloads videos into one directory per channel.
pub struct Downloader {
    output_dir: String,
}

impl View for Downloader {
    type V = Seq<char>;

    closed spec fn view(&self) -> Seq<char> {
        self.output_dir@
    }
}

impl Downloader {
    /// A downloader that stores under `output_dir`.
    pub fn new(output_dir: String) -> (r: Downloader)
        ensures
            r@ == output_dir@,
    {
        Downloader { output_dir }
    }

    /// The directory that stores under.
    pub fn output_dir(&self) -> (r: String)
        ensures
            r@ == self@,
    {
        self.output_dir.clone()
    }

    /// The directory for the videos of `channel`.
    pub fn channel_dir(&self, channel: &str) -> (r: String)
        ensures
            r@ == joined(self@, channel@),
    {
        let name = chars_of(channel);
        if name.len() > 0 && name[0] == '/' {
            return string_of(&name);
        }
        let dir = chars_of(self.output_dir.as_str());
        if dir.len() == 0 || dir[dir.len() - 1] == '/' {
            concat(self.output_dir.as_str(), channel)
        } else {
            let with_sep = concat(self.output_dir.as_str(), "/");
            proof {
                reveal_strlit("/");
            }
            concat(with_sep.as_str(), channel)
        }
    }

    /// The download tool's arguments to fetch `url` into the directory of
    /// `channel`, naming the file after the video's title and printing where
    /// it went.
    pub fn download_args(&self, url: &str, channel: &str) -> (r: Vec<String>)
        ensures
            r@.map_values(|s: String| s@) == seq![
                "--no-playlist"@,
                "--output"@,
                joined(self@, channel@) + name_template(),
                "--print"@,
                "after_move:filepath"@,
                url@,
            ],
    {
        proof {
            reveal_strlit("--no-playlist");
            reveal_strlit("--output");
            reveal_strlit("/%(title)s.%(ext)s");
            reveal_strlit("--print");
            reveal_strlit("after_move:filepath");
        }
        let dir = self.channel_dir(channel);
        let r = vec![
            "--no-playlist".to_string(),
            "--output".to_string(),
            concat(dir.as_str(), "/%(title)s.%(ext)s"),
            "--print".to_string(),
            "after_move:filepath".to_string(),
            text_of(url),
        ];
        assert(r@.map_values(|s: String| s@) =~= seq![
            "--no-playlist"@,
            "--output"@,
            joined(self@, channel@) + name_template(),
            "--print"@,
            "after_move:filepath"@,
            url@,
        ]);
        r
    }

    /// The download tool's arguments to describe `url` without fetching it.
    pub fn info_args(url: &str) -> (r: Vec<String>)
        ensures
            r@.map_values(|s: String| s@) == seq!["--dump-json"@, "--no-playlist"@, url@],
    {
        proof {
            reveal_strlit("--dump-json");
            reveal_strlit("--no-playlist");
        }
        let r = vec!["--dump-json".to_string(), "--no-playlist".to_string(), text_of(url)];
        assert(r@.map_values(|s: String| s@) =~= seq!["--dump-json"@, "--no-playlist"@, url@]);
        r
    }

    /// Where the downloaded file went, from what the tool printed: the text
    /// without the white space round it.
    pub fn downloaded_path(printed: &str) -> (r: String)
        ensures
            r@ == trimmed(printed@),
    {
        let cs = chars_of(printed);
        let t = trim_chars(&cs);
        string_of(&t)
    }
}

} // verus!
