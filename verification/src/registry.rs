//! The registry of tag names that always name function tags.

use crate::bytes::{lower, lower_all, to_lower};
use vstd::prelude::*;
use vstd::string::StringSliceAdditionalSpecFns;

verus! {

/// A set of tag names, kept in small letters. A tag whose name is in the
/// set is a function tag however it is written.
pub struct TagRegistry {
    names: Vec<Vec<u8>>,
}

impl View for TagRegistry {
    type V = Set<Seq<u8>>;

    closed spec fn view(&self) -> Set<Seq<u8>> {
        Set::new(|name: Seq<u8>| exists|i: int| 0 <= i < self.names@.len() && self.names@[i]@ == name)
    }
}

/// Names of the function tags that a registry holds from the start: the tags
/// of the template language that stand for a single value and never take a
/// body.
pub const STANDARD_TAGS: [&'static str; 237] = [
    "admincgipath", "adminscript", "archivecategory", "archivecount", "archivedate",
    "archivedateend", "archivefile", "archivelabel", "archivelink", "archivetitle",
    "archivetype", "archivetypelabel", "assetaddedby", "assetcount", "assetdateadded",
    "assetdescription", "assetfileext", "assetfilename", "assetfilepath", "assetid",
    "assetlabel", "assetlink", "assetmimetype", "assetproperty", "assetthumbnaillink",
    "assetthumbnailurl", "assettype", "asseturl", "atomscript", "authorauthiconurl",
    "authorauthtype", "authorbasename", "authordisplayname", "authoremail", "authorentrycount",
    "authorid", "authorname", "authorurl", "authoruserpic", "authoruserpicurl",
    "blogarchiveurl", "blogcategorycount", "blogcclicenseimage", "blogcclicenseurl",
    "blogcommentcount", "blogdescription", "blogentrycount", "blogfileextension", "bloghost",
    "blogid", "bloglanguage", "blogname", "blogpagecount", "blogpingcount", "blogrelativeurl",
    "blogsitepath", "blogtemplatesetid", "blogthemeid", "blogtimezone", "blogurl",
    "buildtemplateid", "calendarcellnumber", "calendardate", "calendarday", "canonicallink",
    "canonicalurl", "captchafields", "categoryarchivelink", "categorybasename",
    "categorycommentcount", "categorycount", "categorydescription", "categoryid",
    "categorylabel", "categorytrackbackcount", "categorytrackbacklink", "cgihost", "cgipath",
    "cgirelativeurl", "cgiserverpath", "commentauthor", "commentauthoridentity",
    "commentauthorlink", "commentblogid", "commentbody", "commentdate", "commentemail",
    "commententryid", "commentid", "commentip", "commentlink", "commentname",
    "commentparentid", "commentscript", "commenturl", "configfile", "currentpage", "date",
    "defaultlanguage", "entriescount", "entryatomid", "entryauthor", "entryauthordisplayname",
    "entryauthoremail", "entryauthorid", "entryauthorlink", "entryauthornickname",
    "entryauthorurl", "entryauthorusername", "entryauthoruserpic", "entryauthoruserpicurl",
    "entrybasename", "entryblogdescription", "entryblogid", "entryblogname", "entryblogurl",
    "entrybody", "entrycategory", "entryclass", "entryclasslabel", "entrycommentcount",
    "entrycreateddate", "entrydate", "entryeditlink", "entryexcerpt", "entryflag", "entryid",
    "entrykeywords", "entrylink", "entrymodifieddate", "entrymore", "entrypermalink",
    "entryrank", "entryscore", "entryscoreavg", "entryscorecount", "entryscorehigh",
    "entryscorelow", "entrystatus", "entrytitle", "entrytrackbackcount", "entrytrackbackdata",
    "entrytrackbackid", "entrytrackbacklink", "errormessage", "feedbackscore", "filetemplate",
    "folderbasename", "foldercount", "folderdescription", "folderid", "folderlabel",
    "folderpath", "getvar", "httpcontenttype", "include", "indexbasename", "indexlink",
    "indexname", "link", "nextlink", "notifyscript", "pageauthordisplayname",
    "pageauthoremail", "pageauthorlink", "pageauthorurl", "pagebasename", "pagebody",
    "pagedate", "pageexcerpt", "pageid", "pagekeywords", "pagemodifieddate", "pagemore",
    "pagepermalink", "pagerlink", "pagetitle", "pingblogname", "pingdate", "pingexcerpt",
    "pingid", "pingip", "pingtitle", "pingurl", "previouslink", "productname",
    "publishcharset", "remotesigninlink", "remotesignoutlink", "searchincludeblogs",
    "searchmaxresults", "searchresultcount", "searchscript", "searchstring",
    "searchtemplateid", "setvar", "signinlink", "signonurl", "signoutlink", "staticfilepath",
    "staticwebpath", "subcategorypath", "subcatsrecurse", "subfolderrecurse",
    "supportdirectoryurl", "tagcount", "tagid", "taglabel", "tagname", "tagrank",
    "tagsearchlink", "templatecreatedon", "templatenote", "totalpages", "trackbackscript",
    "var", "version", "websitecclicenseimage", "websitecclicenseurl", "websitecommentcount",
    "websitedescription", "websiteentrycount", "websitefileextension", "websitehost",
    "websiteid", "websitelanguage", "websitename", "websitepagecount", "websitepath",
    "websitepingcount", "websiterelativeurl", "websitethemeid", "websitetimezone",
    "websiteurl", "widgetmanager", "widgetset", "xmlrpcscript",
];

/// The names in `list`, each in small letters.
pub open spec fn names_of(list: Seq<&'static str>) -> Set<Seq<u8>> {
    Set::new(
        |name: Seq<u8>|
            exists|i: int| 0 <= i < list.len() && lower_all((#[trigger] list[i]).spec_bytes()) == name,
    )
}

impl TagRegistry {
    /// A registry without names.
    pub fn new() -> (r: TagRegistry)
        ensures
            r@ == Set::<Seq<u8>>::empty(),
    {
        let r = TagRegistry { names: Vec::new() };
        assert(r@ =~= Set::<Seq<u8>>::empty());
        r
    }

    /// A registry with the names of [`STANDARD_TAGS`].
    pub fn standard() -> (r: TagRegistry)
        ensures
            r@ == names_of(STANDARD_TAGS@),
    {
        let mut r = TagRegistry::new();
        let mut i: usize = 0;
        while i < STANDARD_TAGS.len()
            invariant
                i <= STANDARD_TAGS@.len(),
                r@ == names_of(STANDARD_TAGS@.subrange(0, i as int)),
            decreases STANDARD_TAGS@.len() - i,
        {
            r.insert(STANDARD_TAGS[i]);
            proof {
                let before = STANDARD_TAGS@.subrange(0, i as int);
                let after = STANDARD_TAGS@.subrange(0, i + 1);
                let added = lower_all(STANDARD_TAGS@[i as int].spec_bytes());
                assert forall|name: Seq<u8>|
                    names_of(after).contains(name) <==> names_of(before).insert(added).contains(
                        name,
                    ) by {
                    if names_of(after).contains(name) {
                        let k = choose|k: int|
                            0 <= k < after.len() && lower_all((#[trigger] after[k]).spec_bytes())
                                == name;
                        if k < i {
                            assert(before[k] == after[k]);
                        }
                    }
                    if names_of(before).contains(name) {
                        let k = choose|k: int|
                            0 <= k < before.len() && lower_all((#[trigger] before[k]).spec_bytes())
                                == name;
                        assert(after[k] == before[k]);
                    }
                    if name == added {
                        assert(after[i as int] == STANDARD_TAGS@[i as int]);
                    }
                }
                assert(names_of(after) =~= names_of(before).insert(added));
            }
            i = i + 1;
        }
        assert(STANDARD_TAGS@.subrange(0, i as int) =~= STANDARD_TAGS@);
        r
    }

    /// Adds `name`, in small letters.
    pub fn insert(&mut self, name: &str)
        ensures
            final(self)@ == old(self)@.insert(lower_all(name.spec_bytes())),
    {
        let bytes = name.as_bytes();
        let mut lowered: Vec<u8> = Vec::new();
        let mut i: usize = 0;
        while i < bytes.len()
            invariant
                i <= bytes@.len(),
                lowered@.len() == i,
                forall|k: int| 0 <= k < i ==> lowered@[k] == lower(bytes@[k]),
            decreases bytes@.len() - i,
        {
            lowered.push(to_lower(bytes[i]));
            i = i + 1;
        }
        assert(lowered@ =~= lower_all(bytes@));
        let ghost before = self.names@;
        self.names.push(lowered);
        proof {
            let added = lower_all(name.spec_bytes());
            assert forall|n: Seq<u8>| self@.contains(n) <==> old(self)@.insert(added).contains(
                n,
            ) by {
                if self@.contains(n) {
                    let k = choose|k: int| 0 <= k < self.names@.len() && self.names@[k]@ == n;
                    if k < before.len() {
                        assert(before[k]@ == n);
                    }
                }
                if old(self)@.contains(n) {
                    let k = choose|k: int| 0 <= k < before.len() && before[k]@ == n;
                    assert(self.names@[k]@ == n);
                }
                if n == added {
                    assert(self.names@[before.len() as int]@ == n);
                }
            }
            assert(self@ =~= old(self)@.insert(added));
        }
    }

    /// Whether the bytes of `bytes` from `from` to `to`, in small letters,
    /// are a name of the registry.
    pub fn contains_range(&self, bytes: &[u8], from: usize, to: usize) -> (r: bool)
        requires
            from <= to <= bytes@.len(),
        ensures
            r == self@.contains(lower_all(bytes@.subrange(from as int, to as int))),
    {
        let ghost wanted = lower_all(bytes@.subrange(from as int, to as int));
        let mut i: usize = 0;
        while i < self.names.len()
            invariant
                i <= self.names@.len(),
                from <= to <= bytes@.len(),
                wanted == lower_all(bytes@.subrange(from as int, to as int)),
                forall|k: int| 0 <= k < i ==> self.names@[k]@ != wanted,
            decreases self.names@.len() - i,
        {
            let name = &self.names[i];
            if name.len() == to - from {
                let mut j: usize = 0;
                while j < name.len() && name[j] == to_lower(bytes[from + j])
                    invariant
                        j <= name@.len(),
                        name@.len() == to - from,
                        from <= to <= bytes@.len(),
                        forall|k: int| 0 <= k < j ==> name@[k] == lower(bytes@[from + k]),
                    decreases name@.len() - j,
                {
                    j = j + 1;
                }
                if j == name.len() {
                    assert(name@ =~= wanted);
                    return true;
                }
                assert(name@[j as int] != wanted[j as int]);
            }
            i = i + 1;
        }
        false
    }

    /// Whether `name`, in small letters, is a name of the registry.
    pub fn contains(&self, name: &str) -> (r: bool)
        ensures
            r == self@.contains(lower_all(name.spec_bytes())),
    {
        let bytes = name.as_bytes();
        assert(bytes@.subrange(0, bytes@.len() as int) =~= bytes@);
        self.contains_range(bytes, 0, bytes.len())
    }
}

} // verus!
