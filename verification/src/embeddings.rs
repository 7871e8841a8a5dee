//! Which files the embedding pipeline handles, and which model it uses.

use vstd::prelude::*;
use crate::text::{ascii_lower, chars_of, lower_char, owned};

verus! {

/// Model id used by `videre embed` / `search` / `report` when neither
/// `--model` nor `config.toml` names one. Each model owns a separate
/// database, so changing it invalidates nothing.
pub const DEFAULT_MODEL_ID: &'static str = "google/siglip-base-patch16-224";

/// Whether an extension, in any case, names a video handled by
/// single-frame extraction: `mov` or `mp4`.
pub open spec fn is_video_ext_spec(ext: Seq<char>) -> bool {
    ascii_lower(ext) == "mov"@ || ascii_lower(ext) == "mp4"@
}

/// True if `ext` (any case) is a video extension handled by single-frame
/// QuickLook extraction. Shared by every "is this a video" check so the
/// extension list can't drift between call sites.
pub fn is_video_ext(ext: &str) -> (r: bool)
    ensures
        r == is_video_ext_spec(ext@),
{
    proof {
        reveal_strlit("mov");
        reveal_strlit("mp4");
    }
    let v = chars_of(ext);
    if v.len() != 3 {
        assert(ascii_lower(ext@).len() == ext@.len());
        return false;
    }
    let a = lower_char(v[0]);
    let b = lower_char(v[1]);
    let c = lower_char(v[2]);
    let r = a == 'm' && ((b == 'o' && c == 'v') || (b == 'p' && c == '4'));
    proof {
        let l = ascii_lower(ext@);
        assert(l[0] == a && l[1] == b && l[2] == c);
        if r {
            if b == 'o' {
                assert(l =~= "mov"@);
            } else {
                assert(l =~= "mp4"@);
            }
        } else {
            if l == "mov"@ {
                assert(l[0] == 'm' && l[1] == 'o' && l[2] == 'v');
            }
            if l == "mp4"@ {
                assert(l[0] == 'm' && l[1] == 'p' && l[2] == '4');
            }
        }
    }
    r
}

/// The model to use: `--model`, else the configured default, else the
/// built-in default.
pub open spec fn resolved_model_id(explicit: Option<Seq<char>>, configured: Option<Seq<char>>) -> Seq<
    char,
> {
    match explicit {
        Some(id) => id,
        None => match configured {
            Some(id) => id,
            None => DEFAULT_MODEL_ID@,
        },
    }
}

/// The model to use, given what the configuration names: `--model` >
/// `config.toml` > the built-in default. Reading `config.toml`, and failing
/// on a malformed one, is the caller's part.
pub fn resolve_model_id_in(explicit: Option<&str>, configured: Option<String>) -> (r: String)
    ensures
        r@ == resolved_model_id(
            crate::db::opt_str_view(explicit),
            match configured {
                Some(s) => Some(s@),
                None => None,
            },
        ),
{
    match explicit {
        Some(id) => owned(id),
        None => match configured {
            Some(id) => id,
            None => owned(DEFAULT_MODEL_ID),
        },
    }
}

/// One unique content hash waiting to be embedded, with a representative
/// path.
#[derive(Debug, Clone)]
pub struct PendingImage {
    pub hash: String,
    pub path: String,
}

} // verus!
