//! Crosstabs, banners and the tables that hold them.

use vstd::prelude::*;

use crate::crosstabs::logic::{inorder, CrossTabsError, CrossTabsLogic, LogicTree};
use crate::crosstabs::parse::{replace_all, replace_all_exec};
use crate::crosstabs::rewrite::logic_tree;
use crate::text::all_ascii;
use crate::text::{
    chars_of, extend_chars, find_seq, find_seq_exec, push_str, string_from, to_uppercase, trim_chars,
    trim_end_chars, trim_end_ws, trim_ws, uppercase,
};

verus! {

/// A crosstab of a table.
#[derive(Debug, Clone)]
pub struct CrossTab {
    pub title: String,
    pub specs: CrossTabsLogic,
    pub base: String,
    pub options: String,
}

/// A banner column.
#[derive(Debug, Clone)]
pub struct Banner {
    pub title: String,
    pub subtitle: String,
    pub specs: CrossTabsLogic,
    pub base: String,
    pub options: String,
}

pub struct CrossTabModel {
    pub title: Seq<char>,
    pub specs: LogicTree,
    pub base: Seq<char>,
    pub options: Seq<char>,
}

pub struct BannerModel {
    pub title: Seq<char>,
    pub subtitle: Seq<char>,
    pub specs: LogicTree,
    pub base: Seq<char>,
    pub options: Seq<char>,
}

impl CrossTab {
    pub open spec fn model(&self) -> CrossTabModel {
        CrossTabModel { title: self.title@, specs: self.specs.tree(), base: self.base@, options: self.options@ }
    }
}

impl Banner {
    pub open spec fn model(&self) -> BannerModel {
        BannerModel {
            title: self.title@,
            subtitle: self.subtitle@,
            specs: self.specs.tree(),
            base: self.base@,
            options: self.options@,
        }
    }
}

/// The crosstab that `CrossTab::new` builds, when the specs parse.
pub open spec fn crosstab_of(title: Seq<char>, specs: Seq<char>, base: Seq<char>, options: Seq<char>) -> Option<CrossTabModel> {
    match logic_tree(specs) {
        Some(t) => Some(CrossTabModel {
            title: trim_ws(title),
            specs: t,
            base,
            options: if find_seq(uppercase(specs), "MEAN"@) is Some { "NOVP FDP 0 "@ + options } else { options },
        }),
        None => None,
    }
}

/// The banner that `Banner::new` builds, when the specs parse.
pub open spec fn banner_of(title: Seq<char>, subtitle: Seq<char>, specs: Seq<char>, base: Seq<char>, options: Seq<char>) -> Option<BannerModel> {
    match logic_tree(specs) {
        Some(t) => Some(BannerModel { title: trim_ws(title), subtitle: trim_ws(subtitle), specs: t, base, options }),
        None => None,
    }
}

/// A title for UNCLE: upper-cased, `/` and `=` doubled.
pub open spec fn uncle_title_of(title: Seq<char>) -> Seq<char> {
    replace_all(replace_all(uppercase(title), "/"@, "//"@), "="@, "=="@)
}

/// A subtitle for UNCLE: upper-cased, `/`, `&` and `=` doubled, trailing
/// whitespace removed.
pub open spec fn uncle_subtitle_of(subtitle: Seq<char>) -> Seq<char> {
    trim_end_ws(replace_all(replace_all(replace_all(uppercase(subtitle), "/"@, "//"@), "&"@, "&&"@), "="@, "=="@))
}

fn doubled(v: &Vec<char>, c: char) -> (r: Vec<char>)
    ensures
        r@ == replace_all(v@, seq![c], seq![c, c]),
{
    let one: [char; 1] = [c];
    let two: [char; 2] = [c, c];
    assert(one@ =~= seq![c]);
    assert(two@ =~= seq![c, c]);
    replace_all_exec(v, &one, &two)
}

fn uncle_title_exec(title: &String) -> (r: String)
    ensures
        r@ == uncle_title_of(title@),
{
    proof {
        reveal_strlit("/");
        reveal_strlit("//");
        reveal_strlit("=");
        reveal_strlit("==");
        assert("/"@ =~= seq!['/']);
        assert("//"@ =~= seq!['/', '/']);
        assert("="@ =~= seq!['=']);
        assert("=="@ =~= seq!['=', '=']);
    }
    let up = to_uppercase(title.as_str());
    let u = chars_of(up.as_str());
    let a = doubled(&u, '/');
    let b = doubled(&a, '=');
    string_from(b.as_slice())
}

impl CrossTab {
    /// A crosstab: the title trimmed, the specs parsed; specs that mention
    /// `MEAN` get the options `NOVP FDP 0` in front.
    pub fn new(title: &str, specs: &str, base: &str, options: &str) -> (r: Result<Self, CrossTabsError>)
        requires
            logic_tree(specs@) is Some || all_ascii(specs@),
        ensures
            r matches Ok(ct) && Some(ct.model()) == crosstab_of(title@, specs@, base@, options@),
    {
        let up = to_uppercase(specs);
        let uc = chars_of(up.as_str());
        let mean: [char; 4] = ['M', 'E', 'A', 'N'];
        proof {
            reveal_strlit("MEAN");
            reveal_strlit("NOVP FDP 0 ");
            assert(mean@ =~= "MEAN"@);
        }
        let processed = if find_seq_exec(&uc, &mean).is_some() {
            let mut p: Vec<char> = Vec::new();
            push_str(&mut p, "NOVP FDP 0 ");
            push_str(&mut p, options);
            string_from(p.as_slice())
        } else {
            options.to_owned()
        };
        let tv = chars_of(title);
        let tt = trim_chars(&tv);
        let logic = match CrossTabsLogic::new(specs) {
            Ok(l) => l,
            Err(e) => {
                return Err(e);
            },
        };
        Ok(CrossTab { title: string_from(tt.as_slice()), specs: logic, base: base.to_owned(), options: processed })
    }

    /// [`CrossTab::new`], or `None` where the specs cut an operator inside a
    /// multi-byte character.
    pub fn try_new(title: &str, specs: &str, base: &str, options: &str) -> (r: Option<Result<Self, CrossTabsError>>)
        ensures
            r is Some <==> logic_tree(specs@) is Some,
            r matches Some(res) ==> res matches Ok(ct) && Some(ct.model()) == crosstab_of(title@, specs@, base@, options@),
    {
        match CrossTabsLogic::try_new(specs) {
            None => None,
            Some(_) => Some(Self::new(title, specs, base, options)),
        }
    }

    /// The title for UNCLE: upper-cased, `/` and `=` doubled.
    pub fn uncle_title(&self) -> (r: String)
        ensures
            r@ == uncle_title_of(self.title@),
    {
        uncle_title_exec(&self.title)
    }
}

impl Banner {
    /// A banner: title and subtitle trimmed, the specs parsed.
    pub fn new(title: &str, subtitle: &str, specs: &str, base: &str, options: &str) -> (r: Result<Self, CrossTabsError>)
        requires
            logic_tree(specs@) is Some || all_ascii(specs@),
        ensures
            r matches Ok(b) && Some(b.model()) == banner_of(title@, subtitle@, specs@, base@, options@),
    {
        let tv = chars_of(title);
        let tt = trim_chars(&tv);
        let sv = chars_of(subtitle);
        let st = trim_chars(&sv);
        let logic = match CrossTabsLogic::new(specs) {
            Ok(l) => l,
            Err(e) => {
                return Err(e);
            },
        };
        Ok(Banner {
            title: string_from(tt.as_slice()),
            subtitle: string_from(st.as_slice()),
            specs: logic,
            base: base.to_owned(),
            options: options.to_owned(),
        })
    }

    /// The title for UNCLE: upper-cased, `/` and `=` doubled.
    pub fn uncle_title(&self) -> (r: String)
        ensures
            r@ == uncle_title_of(self.title@),
    {
        uncle_title_exec(&self.title)
    }

    /// The subtitle for UNCLE: upper-cased, `/`, `&` and `=` doubled,
    /// trailing whitespace removed.
    pub fn uncle_subtitle(&self) -> (r: String)
        ensures
            r@ == uncle_subtitle_of(self.subtitle@),
    {
        proof {
            reveal_strlit("/");
            reveal_strlit("//");
            reveal_strlit("&");
            reveal_strlit("&&");
            reveal_strlit("=");
            reveal_strlit("==");
            assert("/"@ =~= seq!['/']);
            assert("//"@ =~= seq!['/', '/']);
            assert("&"@ =~= seq!['&']);
            assert("&&"@ =~= seq!['&', '&']);
            assert("="@ =~= seq!['=']);
            assert("=="@ =~= seq!['=', '=']);
        }
        let up = to_uppercase(self.subtitle.as_str());
        let u = chars_of(up.as_str());
        let a = doubled(&u, '/');
        let b = doubled(&a, '&');
        let c = doubled(&b, '=');
        let d = trim_end_chars(&c);
        string_from(d.as_slice())
    }
}

/// A table of crosstabs.
#[derive(Debug)]
pub struct CrossTabsTable {
    pub index: String,
    pub title: String,
    pub crosstabs: Vec<CrossTab>,
    pub include_text: bool,
}

/// A table of banner columns.
#[derive(Debug)]
pub struct BannersTable {
    pub index: String,
    pub title: String,
    pub banners: Vec<Banner>,
}

/// A table of banner columns, as values.
pub struct BannersTableModel {
    pub index: Seq<char>,
    pub title: Seq<char>,
    pub banners: Seq<BannerModel>,
}

impl BannersTable {
    pub open spec fn model(&self) -> BannersTableModel {
        BannersTableModel { index: self.index@, title: self.title@, banners: banner_models(self.banners@) }
    }
}

/// The ASCII digits of `s`, in order.
pub open spec fn ascii_digits(s: Seq<char>) -> Seq<char>
    decreases s.len(),
{
    if s.len() == 0 {
        Seq::empty()
    } else {
        (if '0' <= s[0] <= '9' { seq![s[0]] } else { Seq::empty() }) + ascii_digits(s.drop_first())
    }
}

/// The ASCII digits of `s`, in order.
pub fn ascii_digits_exec(s: &str) -> (r: String)
    ensures
        r@ == ascii_digits(s@),
{
    let v = chars_of(s);
    let mut out: Vec<char> = Vec::new();
    let mut k: usize = 0;
    assert(v@.skip(0) =~= v@);
    while k < v.len()
        invariant
            k <= v.len(),
            out@ + ascii_digits(v@.skip(k as int)) == ascii_digits(v@),
        decreases v.len() - k,
    {
        assert(v@.skip(k as int)[0] == v@[k as int]);
        assert(v@.skip(k as int).drop_first() =~= v@.skip(k + 1));
        let ghost o = out@;
        if '0' <= v[k] && v[k] <= '9' {
            out.push(v[k]);
            assert(out@ + ascii_digits(v@.skip(k + 1)) =~= o + (seq![v@[k as int]] + ascii_digits(v@.skip(k + 1))));
        } else {
            assert(out@ + ascii_digits(v@.skip(k + 1)) =~= o + (Seq::<char>::empty() + ascii_digits(v@.skip(k + 1))));
        }
        k = k + 1;
    }
    assert(v@.skip(v.len() as int) =~= Seq::<char>::empty());
    assert(out@ + Seq::<char>::empty() =~= out@);
    string_from(out.as_slice())
}

pub open spec fn crosstab_models(s: Seq<CrossTab>) -> Seq<CrossTabModel> {
    s.map_values(|c: CrossTab| c.model())
}

pub open spec fn banner_models(s: Seq<Banner>) -> Seq<BannerModel> {
    s.map_values(|b: Banner| b.model())
}

/// Whether some crosstab's specs, written out, equal `base`.
pub open spec fn base_exists(cts: Seq<CrossTabModel>, base: Seq<char>) -> bool {
    exists|j: int| 0 <= j < cts.len() && inorder((#[trigger] cts[j]).specs) == base
}

/// Whether `ct` needs a base crosstab added: its base is not `ALL` and no
/// crosstab of `all` has that base as its specs.
pub open spec fn needs_base(all: Seq<CrossTabModel>, ct: CrossTabModel) -> bool {
    ct.base != "ALL"@ && !base_exists(all, ct.base)
}

/// The base crosstabs added for `cts[i..]`, in order (where a base's specs
/// fail to parse, none is added).
pub open spec fn added_bases(all: Seq<CrossTabModel>, cts: Seq<CrossTabModel>, i: int) -> Seq<CrossTabModel>
    decreases cts.len() - i,
{
    if i < 0 || i >= cts.len() {
        Seq::empty()
    } else {
        (if needs_base(all, cts[i]) {
            match crosstab_of(cts[i].base, cts[i].base, "ALL"@, "NOPRINT"@) {
                Some(b) => seq![b],
                None => Seq::empty(),
            }
        } else {
            Seq::empty()
        }) + added_bases(all, cts, i + 1)
    }
}

/// Whether every base that needs adding parses (an ASCII base always
/// does).
pub open spec fn bases_parse(cts: Seq<CrossTabModel>) -> bool {
    forall|i: int|
        0 <= i < cts.len() && needs_base(cts, #[trigger] cts[i]) ==> logic_tree(cts[i].base) is Some || all_ascii(
            cts[i].base,
        )
}

impl CrossTabsTable {
    /// A table: the index keeps its ASCII digits.
    pub fn new(index: &str, title: &str, include_text: bool) -> (r: Self)
        ensures
            r.index@ == ascii_digits(index@),
            r.title@ == title@,
            r.crosstabs@.len() == 0,
            r.include_text == include_text,
    {
        CrossTabsTable { index: ascii_digits_exec(index), title: title.to_owned(), crosstabs: Vec::new(), include_text }
    }

    /// Append a crosstab.
    pub fn add_crosstab(&mut self, title: &str, specs: &str, base: &str, options: &str) -> (r: Result<(), CrossTabsError>)
        requires
            logic_tree(specs@) is Some || all_ascii(specs@),
        ensures
            r is Ok,
            final(self).index == old(self).index,
            final(self).title == old(self).title,
            final(self).include_text == old(self).include_text,
            crosstab_models(final(self).crosstabs@) == crosstab_models(old(self).crosstabs@).push(
                crosstab_of(title@, specs@, base@, options@)->0),
    {
        let ct = match CrossTab::new(title, specs, base, options) {
            Ok(c) => c,
            Err(e) => {
                return Err(e);
            },
        };
        let ghost before = self.crosstabs@;
        self.crosstabs.push(ct);
        assert(crosstab_models(self.crosstabs@) =~= crosstab_models(before).push(ct.model()));
        Ok(())
    }

    /// [`CrossTabsTable::add_crosstab`], or `None` (the table unchanged)
    /// where the specs cut an operator inside a multi-byte character.
    pub fn try_add_crosstab(&mut self, title: &str, specs: &str, base: &str, options: &str) -> (r: Option<
        Result<(), CrossTabsError>,
    >)
        ensures
            r is Some <==> logic_tree(specs@) is Some,
            r is None ==> *final(self) == *old(self),
            r is Some ==> {
                &&& r->0 is Ok
                &&& final(self).index == old(self).index
                &&& final(self).title == old(self).title
                &&& final(self).include_text == old(self).include_text
                &&& crosstab_models(final(self).crosstabs@) == crosstab_models(old(self).crosstabs@).push(
                    crosstab_of(title@, specs@, base@, options@)->0)
            },
    {
        match CrossTabsLogic::try_new(specs) {
            None => None,
            Some(_) => Some(self.add_crosstab(title, specs, base, options)),
        }
    }

    /// Whether every base that [`CrossTabsTable::check_bases`] would add
    /// parses.
    pub fn bases_ok(&self) -> (r: bool)
        ensures
            r == bases_parse(crosstab_models(self.crosstabs@)),
    {
        let ghost all = crosstab_models(self.crosstabs@);
        let n = self.crosstabs.len();
        let mut inorders: Vec<String> = Vec::new();
        let mut j: usize = 0;
        while j < n
            invariant
                j <= n == self.crosstabs.len(),
                all == crosstab_models(self.crosstabs@),
                inorders.len() == j,
                forall|k: int| 0 <= k < j ==> (#[trigger] inorders@[k])@ == inorder(all[k].specs),
            decreases n - j,
        {
            let s = self.crosstabs[j].specs.to_inorder();
            inorders.push(s);
            j = j + 1;
        }
        let mut i: usize = 0;
        while i < n
            invariant
                i <= n == self.crosstabs.len(),
                all == crosstab_models(self.crosstabs@),
                inorders.len() == n,
                forall|k: int| 0 <= k < n ==> (#[trigger] inorders@[k])@ == inorder(all[k].specs),
                forall|q: int|
                    0 <= q < i && needs_base(all, #[trigger] all[q]) ==> logic_tree(all[q].base) is Some || all_ascii(
                        all[q].base,
                    ),
            decreases n - i,
        {
            let base = &self.crosstabs[i].base;
            assert(all[i as int].base == base@);
            if !base_is_all(base) {
                let mut exists = false;
                let mut k: usize = 0;
                while k < n
                    invariant
                        k <= n,
                        inorders.len() == n,
                        all.len() == n,
                        forall|q: int| 0 <= q < n ==> (#[trigger] inorders@[q])@ == inorder(all[q].specs),
                        exists <==> (exists|q: int| 0 <= q < k && inorder((#[trigger] all[q]).specs) == base@),
                    decreases n - k,
                {
                    if inorders[k] == *base {
                        exists = true;
                    }
                    k = k + 1;
                }
                if !exists && CrossTabsLogic::try_new(base.as_str()).is_none() {
                    assert(needs_base(all, all[i as int]));
                    return false;
                }
            }
            i = i + 1;
        }
        true
    }

    /// [`CrossTabsTable::check_bases`], or `false` (the table unchanged)
    /// where a base that would be added does not parse.
    pub fn try_check_bases(&mut self) -> (r: bool)
        ensures
            r == bases_parse(crosstab_models(old(self).crosstabs@)),
            !r ==> *final(self) == *old(self),
            r ==> {
                &&& final(self).index == old(self).index
                &&& final(self).title == old(self).title
                &&& final(self).include_text == old(self).include_text
                &&& crosstab_models(final(self).crosstabs@) == added_bases(crosstab_models(old(self).crosstabs@),
                    crosstab_models(old(self).crosstabs@), 0) + crosstab_models(old(self).crosstabs@)
            },
    {
        if self.bases_ok() {
            self.check_bases();
            true
        } else {
            false
        }
    }

    /// Put in front, for each crosstab whose base is neither `ALL` nor the
    /// specs of a crosstab of the table, a crosstab of that base (with base
    /// `ALL` and option `NOPRINT`), in order.
    pub fn check_bases(&mut self)
        requires
            bases_parse(crosstab_models(old(self).crosstabs@)),
        ensures
            final(self).index == old(self).index,
            final(self).title == old(self).title,
            final(self).include_text == old(self).include_text,
            crosstab_models(final(self).crosstabs@) == added_bases(crosstab_models(old(self).crosstabs@),
                crosstab_models(old(self).crosstabs@), 0) + crosstab_models(old(self).crosstabs@),
    {
        proof {
            reveal_strlit("ALL");
            reveal_strlit("NOPRINT");
        }
        let ghost all = crosstab_models(self.crosstabs@);
        let n = self.crosstabs.len();
        let mut inorders: Vec<String> = Vec::new();
        let mut j: usize = 0;
        while j < n
            invariant
                j <= n == self.crosstabs.len(),
                all == crosstab_models(self.crosstabs@),
                inorders.len() == j,
                forall|k: int| 0 <= k < j ==> (#[trigger] inorders@[k])@ == inorder(all[k].specs),
            decreases n - j,
        {
            let s = self.crosstabs[j].specs.to_inorder();
            inorders.push(s);
            j = j + 1;
        }
        let mut extra: Vec<CrossTab> = Vec::new();
        let mut i: usize = 0;
        assert(crosstab_models(extra@) =~= Seq::<CrossTabModel>::empty());
        while i < n
            invariant
                i <= n == self.crosstabs.len(),
                all == crosstab_models(self.crosstabs@),
                bases_parse(all),
                inorders.len() == n,
                forall|k: int| 0 <= k < n ==> (#[trigger] inorders@[k])@ == inorder(all[k].specs),
                crosstab_models(extra@) + added_bases(all, all, i as int) == added_bases(all, all, 0),
            decreases n - i,
        {
            let base = &self.crosstabs[i].base;
            assert(all[i as int].base == base@);
            let ghost o = extra@;
            let is_all = base_is_all(base);
            if !is_all {
                let mut exists = false;
                let mut k: usize = 0;
                while k < n
                    invariant
                        k <= n,
                        inorders.len() == n,
                        all.len() == n,
                        forall|q: int| 0 <= q < n ==> (#[trigger] inorders@[q])@ == inorder(all[q].specs),
                        exists <==> (exists|q: int| 0 <= q < k && inorder((#[trigger] all[q]).specs) == base@),
                    decreases n - k,
                {
                    if inorders[k] == *base {
                        exists = true;
                    }
                    k = k + 1;
                }
                if !exists {
                    assert(needs_base(all, all[i as int]));
                    let b = CrossTab::new(base.as_str(), base.as_str(), "ALL", "NOPRINT");
                    match b {
                        Ok(ct) => {
                            extra.push(ct);
                            assert(crosstab_models(extra@) =~= crosstab_models(o).push(ct.model()));
                            assert(crosstab_models(extra@) + added_bases(all, all, i + 1) =~= crosstab_models(o)
                                + (seq![ct.model()] + added_bases(all, all, i + 1)));
                        },
                        Err(_) => {},
                    }
                } else {
                    assert(!needs_base(all, all[i as int]));
                    assert(crosstab_models(extra@) + added_bases(all, all, i + 1) =~= crosstab_models(o)
                        + (Seq::<CrossTabModel>::empty() + added_bases(all, all, i + 1)));
                }
            } else {
                assert(!needs_base(all, all[i as int]));
                assert(crosstab_models(extra@) + added_bases(all, all, i + 1) =~= crosstab_models(o)
                    + (Seq::<CrossTabModel>::empty() + added_bases(all, all, i + 1)));
            }
            i = i + 1;
        }
        assert(added_bases(all, all, n as int) =~= Seq::<CrossTabModel>::empty());
        assert(crosstab_models(extra@) =~= added_bases(all, all, 0));
        let mut old_cts: Vec<CrossTab> = Vec::new();
        std::mem::swap(&mut old_cts, &mut self.crosstabs);
        let mut merged = extra;
        let mut m: usize = 0;
        let ghost ex = crosstab_models(merged@);
        while m < old_cts.len()
            invariant
                m <= old_cts.len(),
                crosstab_models(old_cts@) == all,
                crosstab_models(merged@) == ex + all.take(m as int),
            decreases old_cts.len() - m,
        {
            let ghost mb = merged@;
            let c = old_cts[m].clone_crosstab();
            merged.push(c);
            assert(crosstab_models(merged@) =~= crosstab_models(mb).push(all[m as int]));
            assert(all.take(m + 1) =~= all.take(m as int).push(all[m as int]));
            m = m + 1;
        }
        assert(all.take(old_cts.len() as int) =~= all);
        self.crosstabs = merged;
    }
}

fn base_is_all(base: &String) -> (r: bool)
    ensures
        r == (base@ == "ALL"@),
{
    let v = chars_of(base.as_str());
    proof {
        reveal_strlit("ALL");
    }
    if v.len() == 3 && v[0] == 'A' && v[1] == 'L' && v[2] == 'L' {
        assert(v@ =~= "ALL"@);
        true
    } else {
        assert(v@ != "ALL"@) by {
            if v@ == "ALL"@ {
                assert(v@[0] == 'A' && v@[1] == 'L' && v@[2] == 'L');
            }
        }
        false
    }
}

impl CrossTab {
    /// A copy of the crosstab.
    pub fn clone_crosstab(&self) -> (r: CrossTab)
        ensures
            r.model() == self.model(),
    {
        CrossTab {
            title: self.title.clone(),
            specs: self.specs.copy(),
            base: self.base.clone(),
            options: self.options.clone(),
        }
    }
}

impl BannersTable {
    /// A table: the index keeps its ASCII digits.
    pub fn new(index: &str, title: &str) -> (r: Self)
        ensures
            r.index@ == ascii_digits(index@),
            r.title@ == title@,
            r.banners@.len() == 0,
    {
        BannersTable { index: ascii_digits_exec(index), title: title.to_owned(), banners: Vec::new() }
    }

    /// Append a banner.
    pub fn add_banner(&mut self, title: &str, subtitle: &str, specs: &str, base: &str, options: &str) -> (r: Result<(), CrossTabsError>)
        requires
            logic_tree(specs@) is Some || all_ascii(specs@),
        ensures
            r is Ok,
            final(self).index == old(self).index,
            final(self).title == old(self).title,
            banner_models(final(self).banners@) == banner_models(old(self).banners@).push(
                banner_of(title@, subtitle@, specs@, base@, options@)->0),
    {
        let b = match Banner::new(title, subtitle, specs, base, options) {
            Ok(b) => b,
            Err(e) => {
                return Err(e);
            },
        };
        let ghost before = self.banners@;
        self.banners.push(b);
        assert(banner_models(self.banners@) =~= banner_models(before).push(b.model()));
        Ok(())
    }
}

} // verus!
