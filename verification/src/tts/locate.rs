//! Where the model and the voices are looked for: the order of the places,
//! the choice among those that exist, and what to tell the user where a file
//! is missing.
//!
//! Whether a file exists is for the caller to find out; the functions here
//! take the answers.

use crate::tts::koko::InitConfig;
use crate::tts::text::strings;
use vstd::prelude::*;
use vstd::string::StringExecFns;

verus! {

/// The places where a file of the given type is looked for when it is not at
/// `file_path`, in this order: the user's data directory under `home`, the two
/// system-wide data directories, and last the path as it was given. A file
/// that is neither a model nor voices is looked for at its path alone.
pub open spec fn search_order(
    file_path: Seq<char>,
    file_name: Seq<char>,
    home: Seq<char>,
    file_type: Seq<char>,
) -> Seq<Seq<char>> {
    if file_type == "model"@ || file_type == "voices"@ {
        seq![
            home + "/.local/share/koko/"@ + file_name,
            "/usr/local/share/koko/"@ + file_name,
            "/usr/share/koko/"@ + file_name,
            file_path,
        ]
    } else {
        seq![file_path]
    }
}

/// The first of `places` that exists, if one does. `present` says of each
/// place whether a file is there; where it does not match the places in
/// number, nothing is taken to exist.
pub open spec fn first_present(places: Seq<Seq<char>>, present: Seq<bool>) -> Option<Seq<char>>
    decreases places.len(),
{
    if places.len() == 0 || present.len() != places.len() {
        None
    } else if present.first() {
        Some(places.first())
    } else {
        first_present(places.drop_first(), present.drop_first())
    }
}

/// The path under which a file is used: the given path where a file is
/// there, else the first of `places` that exists, else the given path again,
/// for the caller to report.
pub open spec fn located(
    file_path: Seq<char>,
    at_path: bool,
    places: Seq<Seq<char>>,
    present: Seq<bool>,
) -> Seq<char> {
    if at_path {
        file_path
    } else {
        match first_present(places, present) {
            Some(place) => place,
            None => file_path,
        }
    }
}

/// Lists the places where a file is looked for: see `search_order`.
pub fn search_paths(file_path: &str, file_name: &str, home: &str, file_type: &str) -> (out: Vec<
    String,
>)
    ensures
        strings(out@) == search_order(file_path@, file_name@, home@, file_type@),
{
    let kind = file_type.to_owned();
    let mut out: Vec<String> = Vec::new();
    if kind == "model".to_owned() || kind == "voices".to_owned() {
        let mut user = home.to_owned();
        user.append("/.local/share/koko/");
        user.append(file_name);
        let mut local = "/usr/local/share/koko/".to_owned();
        local.append(file_name);
        let mut shared = "/usr/share/koko/".to_owned();
        shared.append(file_name);
        out.push(user);
        out.push(local);
        out.push(shared);
    }
    out.push(file_path.to_owned());
    proof {
        assert(strings(out@) =~= search_order(file_path@, file_name@, home@, file_type@));
    }
    out
}

/// Chooses the path under which a file is used: see `located`.
pub fn choose_location(file_path: &str, at_path: bool, places: &Vec<String>, present: &Vec<bool>) -> (r:
    String)
    ensures
        r@ == located(file_path@, at_path, strings(places@), present@),
{
    if at_path || present.len() != places.len() {
        return file_path.to_owned();
    }
    let mut i: usize = 0;
    proof {
        assert(strings(places@).skip(0) == strings(places@));
        assert(present@.skip(0) == present@);
    }
    while i < places.len()
        invariant
            i <= places.len(),
            !at_path,
            present.len() == places.len(),
            first_present(strings(places@), present@) == first_present(
                strings(places@).skip(i as int),
                present@.skip(i as int),
            ),
        decreases places.len() - i,
    {
        proof {
            assert(strings(places@).skip(i as int).drop_first() == strings(places@).skip(i + 1));
            assert(present@.skip(i as int).drop_first() == present@.skip(i + 1));
        }
        if present[i] {
            proof {
                assert(present@.skip(i as int).first() == present@[i as int]);
                assert(strings(places@).skip(i as int).first() == places@[i as int]@);
            }
            return places[i].clone();
        }
        proof {
            assert(present@.skip(i as int).first() == present@[i as int]);
        }
        i += 1;
    }
    file_path.to_owned()
}

/// A file that the engine needs and that is nowhere to be found.
#[derive(Debug)]
pub enum ConfigError {
    /// No model at the path that was tried last.
    ModelNotFound { path: String, url: String },
    /// No voices at the path that was tried last.
    VoicesNotFound { path: String, url: String },
}

/// A missing file, with its texts as character sequences.
pub ghost enum Missing {
    Model { path: Seq<char>, url: Seq<char> },
    Voices { path: Seq<char>, url: Seq<char> },
}

impl View for ConfigError {
    type V = Missing;

    open spec fn view(&self) -> Missing {
        match self {
            ConfigError::ModelNotFound { path, url } => Missing::Model { path: path@, url: url@ },
            ConfigError::VoicesNotFound { path, url } => Missing::Voices {
                path: path@,
                url: url@,
            },
        }
    }
}

/// What is missing, the model first: nothing where both files exist.
pub open spec fn missing_file(
    model_path: Seq<char>,
    model_present: bool,
    voices_path: Seq<char>,
    voices_present: bool,
    model_url: Seq<char>,
    voices_url: Seq<char>,
) -> Option<Missing> {
    if !model_present {
        Some(Missing::Model { path: model_path, url: model_url })
    } else if !voices_present {
        Some(Missing::Voices { path: voices_path, url: voices_url })
    } else {
        None
    }
}

/// The lines that tell the user what is missing, where to get it and where
/// to put it.
pub open spec fn guidance_lines(missing: Missing) -> Seq<Seq<char>> {
    match missing {
        Missing::Model { path, url } => seq![
            "Model file not found: "@ + path,
            "Please download the model file from: "@ + url,
            "And place it at one of these locations:"@,
            "  - "@ + path,
            "  - ~/.local/share/koko/kokoro-v1.0.onnx"@,
            "  - /usr/local/share/koko/kokoro-v1.0.onnx"@,
            "  - /usr/share/koko/kokoro-v1.0.onnx"@,
        ],
        Missing::Voices { path, url } => seq![
            "Voices data file not found: "@ + path,
            "Please download the voices data file from: "@ + url,
            "And place it at one of these locations:"@,
            "  - "@ + path,
            "  - ~/.local/share/koko/voices-v1.0.bin"@,
            "  - /usr/local/share/koko/voices-v1.0.bin"@,
            "  - /usr/share/koko/voices-v1.0.bin"@,
        ],
    }
}

/// Decides whether the engine can be made from the two files as they were
/// located: it can where both exist, and else the first that is missing is
/// reported, the model before the voices.
pub fn check_files(
    model_path: &str,
    model_present: bool,
    voices_path: &str,
    voices_present: bool,
    cfg: &InitConfig,
) -> (r: Result<(), ConfigError>)
    ensures
        match r {
            Ok(_) => missing_file(
                model_path@,
                model_present,
                voices_path@,
                voices_present,
                cfg.model_url@,
                cfg.voices_url@,
            ) is None,
            Err(e) => missing_file(
                model_path@,
                model_present,
                voices_path@,
                voices_present,
                cfg.model_url@,
                cfg.voices_url@,
            ) == Some(e@),
        },
{
    if !model_present {
        Err(ConfigError::ModelNotFound { path: model_path.to_owned(), url: cfg.model_url.clone() })
    } else if !voices_present {
        Err(
            ConfigError::VoicesNotFound {
                path: voices_path.to_owned(),
                url: cfg.voices_url.clone(),
            },
        )
    } else {
        Ok(())
    }
}

impl ConfigError {
    /// The lines to show the user: see `guidance_lines`.
    pub fn guidance(&self) -> (out: Vec<String>)
        ensures
            strings(out@) == guidance_lines(self@),
    {
        let mut out: Vec<String> = Vec::new();
        match self {
            ConfigError::ModelNotFound { path, url } => {
                let mut what = "Model file not found: ".to_owned();
                what.append(path.as_str());
                let mut whence = "Please download the model file from: ".to_owned();
                whence.append(url.as_str());
                let mut here = "  - ".to_owned();
                here.append(path.as_str());
                out.push(what);
                out.push(whence);
                out.push("And place it at one of these locations:".to_owned());
                out.push(here);
                out.push("  - ~/.local/share/koko/kokoro-v1.0.onnx".to_owned());
                out.push("  - /usr/local/share/koko/kokoro-v1.0.onnx".to_owned());
                out.push("  - /usr/share/koko/kokoro-v1.0.onnx".to_owned());
            },
            ConfigError::VoicesNotFound { path, url } => {
                let mut what = "Voices data file not found: ".to_owned();
                what.append(path.as_str());
                let mut whence = "Please download the voices data file from: ".to_owned();
                whence.append(url.as_str());
                let mut here = "  - ".to_owned();
                here.append(path.as_str());
                out.push(what);
                out.push(whence);
                out.push("And place it at one of these locations:".to_owned());
                out.push(here);
                out.push("  - ~/.local/share/koko/voices-v1.0.bin".to_owned());
                out.push("  - /usr/local/share/koko/voices-v1.0.bin".to_owned());
                out.push("  - /usr/share/koko/voices-v1.0.bin".to_owned());
            },
        }
        proof {
            assert(strings(out@) =~= guidance_lines(self@));
        }
        out
    }
}

} // verus!
