//! Releases as a repository host reports them, and the selection of the
//! latest eligible one from a host's listing.

use vstd::prelude::*;
use vstd::string::*;

verus! {

/// The host's release-listing endpoint for a repository in `owner/name`
/// form.
pub fn releases_url(repo: &String) -> (url: String)
    ensures
        url@ == "https://api.github.com/repos/"@ + repo@ + "/releases"@,
{
    let mut url = "https://api.github.com/repos/".to_owned();
    url.append(repo.as_str());
    url.append("/releases");
    proof {
        assert(url@ =~= "https://api.github.com/repos/"@ + repo@ + "/releases"@);
    }
    url
}

/// One release record from a host's listing. Only records with both
/// `prerelease` and `draft` false are eligible for notification.
pub struct Release {
    pub id: u32,
    pub html_url: String,
    pub name: String,
    pub prerelease: bool,
    pub draft: bool,
    pub body: String,
    pub published_at: String,
}

/// The mathematical image of a [`Release`]: every text field as a sequence
/// of characters.
pub ghost struct ReleaseModel {
    pub id: u32,
    pub html_url: Seq<char>,
    pub name: Seq<char>,
    pub prerelease: bool,
    pub draft: bool,
    pub body: Seq<char>,
    pub published_at: Seq<char>,
}

impl View for Release {
    type V = ReleaseModel;

    open spec fn view(&self) -> ReleaseModel {
        ReleaseModel {
            id: self.id,
            html_url: self.html_url@,
            name: self.name@,
            prerelease: self.prerelease,
            draft: self.draft,
            body: self.body@,
            published_at: self.published_at@,
        }
    }
}

impl Clone for Release {
    fn clone(&self) -> (r: Self)
        ensures
            r@ == self@,
    {
        Release {
            id: self.id,
            html_url: self.html_url.clone(),
            name: self.name.clone(),
            prerelease: self.prerelease,
            draft: self.draft,
            body: self.body.clone(),
            published_at: self.published_at.clone(),
        }
    }
}

/// Why a repository's listing yielded no release to consider.
#[derive(Clone, Copy, PartialEq, Eq, Structural, Debug)]
pub enum FetchError {
    /// The host could not be reached or answered abnormally.
    TransportError,
    /// The host's answer was not a well-formed release listing.
    DecodeError,
    /// The listing held no eligible release.
    NoReleasesFound,
}

/// A release may be notified about only when it is neither a prerelease nor
/// a draft.
pub open spec fn eligible(r: ReleaseModel) -> bool {
    !r.prerelease && !r.draft
}

/// The views of a listing's entries, in listing order.
pub open spec fn models(s: Seq<Release>) -> Seq<ReleaseModel> {
    s.map_values(|r: Release| r@)
}

/// Index `i` holds the listing's selection: an eligible entry whose id is
/// the maximum over all eligible entries, and the last such entry in listing
/// order.
pub open spec fn selects(s: Seq<ReleaseModel>, i: int) -> bool {
    &&& 0 <= i < s.len()
    &&& eligible(s[i])
    &&& forall|j: int| 0 <= j < s.len() && eligible(#[trigger] s[j]) ==> s[j].id <= s[i].id
    &&& forall|j: int| i < j < s.len() && eligible(#[trigger] s[j]) ==> s[j].id < s[i].id
}

/// No entry of the listing is eligible.
pub open spec fn none_eligible(s: Seq<ReleaseModel>) -> bool {
    forall|j: int| 0 <= j < s.len() ==> !eligible(#[trigger] s[j])
}

impl Release {
    /// Select the latest eligible release of a listing: the entry with the
    /// greatest id among those that are neither prereleases nor drafts,
    /// breaking ties in favour of the entry latest in listing order. Fails
    /// with [`FetchError::NoReleasesFound`] exactly when no entry is
    /// eligible.
    pub fn select_latest(releases: &Vec<Release>) -> (r: Result<Release, FetchError>)
        ensures
            match r {
                Ok(rel) => exists|i: int|
                    #[trigger] selects(models(releases@), i) && rel@ == models(releases@)[i],
                Err(e) => e == FetchError::NoReleasesFound && none_eligible(models(releases@)),
            },
    {
        let ghost s = models(releases@);
        let mut best: Option<usize> = None;
        let mut k: usize = 0;
        while k < releases.len()
            invariant
                k <= releases.len(),
                s == models(releases@),
                match best {
                    Some(b) => b < k && selects(s.subrange(0, k as int), b as int),
                    None => none_eligible(s.subrange(0, k as int)),
                },
            decreases releases.len() - k,
        {
            let e = &releases[k];
            if !e.prerelease && !e.draft {
                let replace = match best {
                    Some(b) => releases[b].id <= e.id,
                    None => true,
                };
                if replace {
                    best = Some(k);
                }
            }
            k = k + 1;
            proof {
                let pre = s.subrange(0, k as int);
                assert(pre.drop_last() =~= s.subrange(0, k - 1));
                assert(pre.last() == s[k - 1]);
            }
        }
        proof {
            assert(s.subrange(0, releases@.len() as int) =~= s);
        }
        match best {
            Some(b) => Ok(releases[b].clone()),
            None => Err(FetchError::NoReleasesFound),
        }
    }
}

} // verus!
