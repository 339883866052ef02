use vstd::prelude::*;
use vstd::string::StringExecFns;

verus! {

/// One component of a lexical path: the current-directory marker `.`,
/// the parent-directory marker `..`, or a normal named component.
pub enum Part {
    CurDir,
    ParentDir,
    Normal(String),
}

/// Mathematical model of a path component.
#[verifier::ext_equal]
pub enum PartV {
    CurDir,
    ParentDir,
    Normal(Seq<char>),
}

impl View for Part {
    type V = PartV;

    open spec fn view(&self) -> PartV {
        match self {
            Part::CurDir => PartV::CurDir,
            Part::ParentDir => PartV::ParentDir,
            Part::Normal(s) => PartV::Normal(s@),
        }
    }
}

/// The models of a sequence of components.
pub open spec fn parts_view(parts: Seq<Part>) -> Seq<PartV> {
    parts.map_values(|p: Part| p@)
}

/// Appending a component appends its model.
pub proof fn lemma_parts_view_push(s: Seq<Part>, p: Part)
    ensures
        parts_view(s.push(p)) == parts_view(s).push(p@),
{
    assert(parts_view(s.push(p)) =~= parts_view(s).push(p@));
}

impl Clone for Part {
    fn clone(&self) -> (r: Self)
        ensures
            r@ == self@,
    {
        match self {
            Part::CurDir => Part::CurDir,
            Part::ParentDir => Part::ParentDir,
            Part::Normal(s) => Part::Normal(s.clone()),
        }
    }
}

/// A path held purely as data: an absoluteness flag and a sequence of
/// components. No filesystem is consulted; all operations are lexical.
pub struct LexPath {
    pub absolute: bool,
    pub parts: Vec<Part>,
}

/// Mathematical model of a lexical path.
#[verifier::ext_equal]
pub struct PathV {
    pub absolute: bool,
    pub parts: Seq<PartV>,
}

impl View for LexPath {
    type V = PathV;

    open spec fn view(&self) -> PathV {
        PathV { absolute: self.absolute, parts: parts_view(self.parts@) }
    }
}

impl Clone for LexPath {
    fn clone(&self) -> (r: Self)
        ensures
            r@ == self@,
    {
        let mut parts: Vec<Part> = Vec::new();
        let mut i: usize = 0;
        while i < self.parts.len()
            invariant
                i <= self.parts.len(),
                parts_view(parts@) == parts_view(self.parts@).take(i as int),
            decreases self.parts.len() - i,
        {
            let ghost prev = parts@;
            parts.push(self.parts[i].clone());
            proof {
                lemma_parts_view_push(prev, parts@.last());
                assert(parts_view(parts@) =~= parts_view(self.parts@).take(i + 1));
            }
            i += 1;
        }
        proof {
            assert(parts_view(parts@) =~= parts_view(self.parts@));
        }
        LexPath { absolute: self.absolute, parts }
    }
}

/// Compare two components for equality of their models.
pub fn part_eq(a: &Part, b: &Part) -> (r: bool)
    ensures
        r == (a@ == b@),
{
    match (a, b) {
        (Part::CurDir, Part::CurDir) => true,
        (Part::ParentDir, Part::ParentDir) => true,
        (Part::Normal(x), Part::Normal(y)) => x.eq(y),
        _ => false,
    }
}

impl LexPath {
    /// Compare two paths for equality of their models.
    pub fn path_eq(&self, other: &LexPath) -> (r: bool)
        ensures
            r == (self@ == other@),
    {
        if self.absolute != other.absolute {
            return false;
        }
        if self.parts.len() != other.parts.len() {
            proof {
                assert(self@.parts.len() != other@.parts.len());
            }
            return false;
        }
        let mut i: usize = 0;
        while i < self.parts.len()
            invariant
                i <= self.parts.len(),
                self.parts.len() == other.parts.len(),
                self@.parts.len() == self.parts.len(),
                other@.parts.len() == other.parts.len(),
                forall|k: int| 0 <= k < i ==> self@.parts[k] == other@.parts[k],
            decreases self.parts.len() - i,
        {
            if !part_eq(&self.parts[i], &other.parts[i]) {
                proof {
                    assert(self@.parts[i as int] != other@.parts[i as int]);
                }
                return false;
            }
            i += 1;
        }
        proof {
            assert(self@.parts =~= other@.parts);
        }
        true
    }
}

/// Joining keeps the left side unless the right side is absolute, in which
/// case the right side replaces it.
pub open spec fn spec_join(a: PathV, b: PathV) -> PathV {
    if b.absolute {
        b
    } else {
        PathV { absolute: a.absolute, parts: a.parts + b.parts }
    }
}

/// The final component's name, when the path ends in a normal component.
pub open spec fn spec_leaf(p: PathV) -> Option<Seq<char>> {
    if p.parts.len() > 0 && p.parts.last() is Normal {
        Some(p.parts.last()->Normal_0)
    } else {
        None
    }
}

/// The path with its final component removed; the empty path stays empty.
pub open spec fn spec_parent(p: PathV) -> PathV {
    if p.parts.len() == 0 {
        p
    } else {
        PathV { absolute: p.absolute, parts: p.parts.drop_last() }
    }
}

fn append_parts(dst: &mut Vec<Part>, src: &Vec<Part>)
    ensures
        parts_view(final(dst)@) == parts_view(old(dst)@) + parts_view(src@),
{
    let mut i: usize = 0;
    proof {
        assert(parts_view(dst@) =~= parts_view(dst@) + parts_view(src@).take(0));
    }
    while i < src.len()
        invariant
            i <= src.len(),
            parts_view(dst@) == parts_view(old(dst)@) + parts_view(src@).take(i as int),
        decreases src.len() - i,
    {
        let ghost prev = dst@;
        dst.push(src[i].clone());
        proof {
            lemma_parts_view_push(prev, dst@.last());
            assert(parts_view(dst@) =~= parts_view(old(dst)@) + parts_view(src@).take(i + 1));
        }
        i += 1;
    }
    proof {
        assert(parts_view(src@).take(src@.len() as int) =~= parts_view(src@));
    }
}

impl LexPath {
    /// Join another path onto this one, as paths are joined lexically: an
    /// absolute right side replaces the left side.
    pub fn join(&self, other: &LexPath) -> (r: LexPath)
        ensures
            r@ == spec_join(self@, other@),
    {
        if other.absolute {
            other.clone()
        } else {
            let mut parts: Vec<Part> = Vec::new();
            append_parts(&mut parts, &self.parts);
            append_parts(&mut parts, &other.parts);
            proof {
                assert(Seq::<PartV>::empty() + parts_view(self.parts@) =~= parts_view(
                    self.parts@,
                ));
            }
            LexPath { absolute: self.absolute, parts }
        }
    }

    /// Join a single named component onto this path.
    pub fn join_one(&self, name: &String) -> (r: LexPath)
        ensures
            r@.absolute == self@.absolute,
            r@.parts == self@.parts.push(PartV::Normal(name@)),
    {
        let mut parts: Vec<Part> = Vec::new();
        append_parts(&mut parts, &self.parts);
        let ghost prev = parts@;
        parts.push(Part::Normal(name.clone()));
        proof {
            lemma_parts_view_push(prev, parts@.last());
            assert(Seq::<PartV>::empty() + parts_view(self.parts@) =~= parts_view(self.parts@));
        }
        LexPath { absolute: self.absolute, parts }
    }

    /// The final component's name, when there is one.
    pub fn leaf(&self) -> (r: Option<String>)
        ensures
            r is Some <==> spec_leaf(self@) is Some,
            r is Some ==> spec_leaf(self@) == Some(r.unwrap()@),
    {
        if self.parts.len() == 0 {
            return None;
        }
        match &self.parts[self.parts.len() - 1] {
            Part::Normal(s) => Some(s.clone()),
            _ => None,
        }
    }

    /// The path with its final component removed.
    pub fn parent(&self) -> (r: LexPath)
        ensures
            r@ == spec_parent(self@),
    {
        if self.parts.len() == 0 {
            return self.clone();
        }
        let mut parts: Vec<Part> = Vec::new();
        let mut i: usize = 0;
        while i < self.parts.len() - 1
            invariant
                self.parts.len() > 0,
                i <= self.parts.len() - 1,
                parts_view(parts@) == parts_view(self.parts@).take(i as int),
            decreases self.parts.len() - 1 - i,
        {
            let ghost prev = parts@;
            parts.push(self.parts[i].clone());
            proof {
                lemma_parts_view_push(prev, parts@.last());
                assert(parts_view(parts@) =~= parts_view(self.parts@).take(i + 1));
            }
            i += 1;
        }
        proof {
            assert(parts_view(self.parts@).take(self.parts@.len() - 1) =~= parts_view(
                self.parts@,
            ).drop_last());
        }
        LexPath { absolute: self.absolute, parts }
    }
}

/// The relative path from `base`'s location to `path`'s, computed over the
/// component sequences; `diverged` records whether a differing component has
/// already been seen. `None` means no relation is computable (the base holds
/// a parent-directory marker before it is exhausted).
pub open spec fn spec_rel(pa: Seq<PartV>, pb: Seq<PartV>, diverged: bool) -> Option<Seq<PartV>>
    decreases pa.len() + pb.len(),
{
    if pa.len() == 0 && pb.len() == 0 {
        Some(Seq::empty())
    } else if pa.len() > 0 && pb.len() == 0 {
        Some(pa)
    } else if pa.len() == 0 {
        match spec_rel(pa, pb.drop_first(), diverged) {
            Some(r) => Some(seq![PartV::ParentDir] + r),
            None => None,
        }
    } else {
        let a = pa.first();
        let b = pb.first();
        if !diverged && a == b {
            spec_rel(pa.drop_first(), pb.drop_first(), false)
        } else if b == PartV::CurDir {
            match spec_rel(pa.drop_first(), pb.drop_first(), true) {
                Some(r) => Some(seq![a] + r),
                None => None,
            }
        } else if b == PartV::ParentDir {
            None
        } else {
            Some(Seq::new(pb.len(), |i: int| PartV::ParentDir) + pa)
        }
    }
}

/// What `get_relative` returns: incomparable when the two paths disagree on
/// absoluteness, otherwise the component-wise relative path.
pub open spec fn spec_get_relative(path: PathV, base: PathV) -> Option<PathV> {
    if path.absolute != base.absolute {
        None
    } else {
        match spec_rel(path.parts, base.parts, false) {
            Some(s) => Some(PathV { absolute: false, parts: s }),
            None => None,
        }
    }
}

spec fn opt_prepend(pre: Seq<PartV>, o: Option<Seq<PartV>>) -> Option<Seq<PartV>> {
    match o {
        Some(s) => Some(pre + s),
        None => None,
    }
}

/// Once the path side is exhausted, the divergence flag no longer matters:
/// every remaining base component yields one ascent marker.
proof fn lemma_rel_diverged_irrelevant_when_path_empty(
    pa: Seq<PartV>,
    pb: Seq<PartV>,
    d1: bool,
    d2: bool,
)
    requires
        pa.len() == 0,
    ensures
        spec_rel(pa, pb, d1) == spec_rel(pa, pb, d2),
    decreases pb.len(),
{
    if pb.len() > 0 {
        lemma_rel_diverged_irrelevant_when_path_empty(pa, pb.drop_first(), d1, d2);
    }
}

/// Compute the path that expresses `path` relative to `base`, or `None`
/// when the two are incomparable: they disagree on absoluteness, or `base`
/// holds a parent-directory marker before it is exhausted.
pub fn get_relative(path: &LexPath, base: &LexPath) -> (r: Option<LexPath>)
    ensures
        r is Some <==> spec_get_relative(path@, base@) is Some,
        r is Some ==> spec_get_relative(path@, base@) == Some(r.unwrap()@),
{
    if path.absolute != base.absolute {
        return None;
    }
    let ghost pa = path@.parts;
    let ghost pb = base@.parts;
    let mut i: usize = 0;
    let mut j: usize = 0;
    let mut rel: Vec<Part> = Vec::new();
    let ghost fullr = spec_rel(pa, pb, false);
    proof {
        assert(pa.skip(0) =~= pa);
        assert(pb.skip(0) =~= pb);
        assert(parts_view(rel@) =~= Seq::<PartV>::empty());
        if fullr is Some {
            assert(Seq::<PartV>::empty() + fullr.unwrap() =~= fullr.unwrap());
        }
    }
    loop
        invariant
            i <= path.parts.len(),
            j <= base.parts.len(),
            pa == path@.parts,
            pb == base@.parts,
            pa.len() == path.parts.len(),
            pb.len() == base.parts.len(),
            fullr == spec_rel(pa, pb, false),
            fullr == opt_prepend(
                parts_view(rel@),
                spec_rel(pa.skip(i as int), pb.skip(j as int), rel.len() > 0),
            ),
        ensures
            fullr == Some(parts_view(rel@)),
        decreases (pa.len() - i) + (pb.len() - j),
    {
        let ghost relv = parts_view(rel@);
        let ghost sa = pa.skip(i as int);
        let ghost sb = pb.skip(j as int);
        if i >= path.parts.len() && j >= base.parts.len() {
            proof {
                assert(relv + Seq::<PartV>::empty() =~= relv);
            }
            break ;
        } else if i < path.parts.len() && j >= base.parts.len() {
            let ghost i0 = i;
            while i < path.parts.len()
                invariant
                    i0 <= i <= path.parts.len(),
                    pa == path@.parts,
                    pa.len() == path.parts.len(),
                    parts_view(rel@) == relv + pa.subrange(i0 as int, i as int),
                decreases path.parts.len() - i,
            {
                let ghost prev = rel@;
                rel.push(path.parts[i].clone());
                proof {
                    lemma_parts_view_push(prev, rel@.last());
                    assert(parts_view(rel@) =~= relv + pa.subrange(i0 as int, i + 1));
                }
                i += 1;
            }
            proof {
                assert(pa.subrange(i0 as int, pa.len() as int) =~= sa);
                assert(relv + sa =~= parts_view(rel@));
            }
            break ;
        } else if i >= path.parts.len() {
            let ghost prev = rel@;
            rel.push(Part::ParentDir);
            proof {
                lemma_parts_view_push(prev, rel@.last());
                assert(sa.len() == 0);
                assert(sb.drop_first() =~= pb.skip(j + 1));
                assert(parts_view(rel@) =~= relv + seq![PartV::ParentDir]);
                lemma_rel_diverged_irrelevant_when_path_empty(
                    sa,
                    sb.drop_first(),
                    relv.len() > 0,
                    parts_view(rel@).len() > 0,
                );
                assert(pa.skip(i as int) == sa);
                if spec_rel(sa, sb.drop_first(), relv.len() > 0) is Some {
                    let rr = spec_rel(sa, sb.drop_first(), relv.len() > 0).unwrap();
                    assert(relv + (seq![PartV::ParentDir] + rr) =~= (relv + seq![PartV::ParentDir])
                        + rr);
                }
            }
            j += 1;
        } else {
            let a_eq_b = part_eq(&path.parts[i], &base.parts[j]);
            let b_is_cur = matches!(&base.parts[j], Part::CurDir);
            let b_is_parent = matches!(&base.parts[j], Part::ParentDir);
            proof {
                assert(sa.first() == pa[i as int]);
                assert(sb.first() == pb[j as int]);
                assert(pa[i as int] == path.parts@[i as int]@);
                assert(pb[j as int] == base.parts@[j as int]@);
                assert(sa.drop_first() =~= pa.skip(i + 1));
                assert(sb.drop_first() =~= pb.skip(j + 1));
            }
            if rel.len() == 0 && a_eq_b {
                i += 1;
                j += 1;
            } else if b_is_cur {
                let ghost prev = rel@;
                rel.push(path.parts[i].clone());
                proof {
                    lemma_parts_view_push(prev, rel@.last());
                    assert(parts_view(rel@) =~= relv + seq![sa.first()]);
                    if spec_rel(sa.drop_first(), sb.drop_first(), true) is Some {
                        let rr = spec_rel(sa.drop_first(), sb.drop_first(), true).unwrap();
                        assert(relv + (seq![sa.first()] + rr) =~= (relv + seq![sa.first()]) + rr);
                    }
                }
                i += 1;
                j += 1;
            } else if b_is_parent {
                proof {
                    assert(spec_rel(sa, sb, relv.len() > 0) is None);
                }
                return None;
            } else {
                // divergence: ascend once per remaining base component, then
                // take the rest of `path` as-is
                proof {
                    assert(sb.first() is Normal);
                    assert(spec_rel(sa, sb, relv.len() > 0) == Some(
                        Seq::new(sb.len(), |k: int| PartV::ParentDir) + sa,
                    ));
                }
                let ghost target = Seq::new(sb.len(), |k: int| PartV::ParentDir) + sa;
                let ghost j0 = j;
                while j < base.parts.len()
                    invariant
                        j0 <= j <= base.parts.len(),
                        pb.len() == base.parts.len(),
                        parts_view(rel@) == relv + Seq::new(
                            (j - j0) as nat,
                            |k: int| PartV::ParentDir,
                        ),
                    decreases base.parts.len() - j,
                {
                    let ghost prev = rel@;
                    rel.push(Part::ParentDir);
                    proof {
                        lemma_parts_view_push(prev, rel@.last());
                        assert(parts_view(rel@) =~= relv + Seq::new(
                            (j + 1 - j0) as nat,
                            |k: int| PartV::ParentDir,
                        ));
                    }
                    j += 1;
                }
                proof {
                    assert((j - j0) as nat == sb.len());
                    assert(Seq::new((j - j0) as nat, |k: int| PartV::ParentDir) =~= Seq::new(
                        sb.len(),
                        |k: int| PartV::ParentDir,
                    ));
                }
                let ghost i0 = i;
                while i < path.parts.len()
                    invariant
                        i0 <= i <= path.parts.len(),
                        pa == path@.parts,
                        pa.len() == path.parts.len(),
                        parts_view(rel@) == relv + Seq::new(sb.len(), |k: int| PartV::ParentDir)
                            + pa.subrange(i0 as int, i as int),
                    decreases path.parts.len() - i,
                {
                    let ghost prev = rel@;
                    rel.push(path.parts[i].clone());
                    proof {
                        lemma_parts_view_push(prev, rel@.last());
                        assert(parts_view(rel@) =~= relv + Seq::new(
                            sb.len(),
                            |k: int| PartV::ParentDir,
                        ) + pa.subrange(i0 as int, i + 1));
                    }
                    i += 1;
                }
                proof {
                    assert(pa.subrange(i0 as int, pa.len() as int) =~= sa);
                    assert(parts_view(rel@) =~= relv + target);
                    assert(pa.skip(pa.len() as int) =~= Seq::<PartV>::empty());
                    assert(pb.skip(pb.len() as int) =~= Seq::<PartV>::empty());
                    assert(parts_view(rel@) + Seq::<PartV>::empty() =~= parts_view(rel@));
                }
                break ;
            }
        }
    }
    proof {
        assert(spec_get_relative(path@, base@) == Some(
            PathV { absolute: false, parts: parts_view(rel@) },
        ));
    }
    Some(LexPath { absolute: false, parts: rel })
}

/// The text of one component: `.` for the current-directory marker, `..`
/// for the parent-directory marker, a normal component's own name.
pub open spec fn render_part(p: PartV) -> Seq<char> {
    match p {
        PartV::CurDir => seq!['.'],
        PartV::ParentDir => seq!['.', '.'],
        PartV::Normal(s) => s,
    }
}

/// The components' texts joined with `/`.
pub open spec fn render_parts(parts: Seq<PartV>) -> Seq<char>
    decreases parts.len(),
{
    if parts.len() == 0 {
        Seq::empty()
    } else if parts.len() == 1 {
        render_part(parts[0])
    } else {
        render_parts(parts.drop_last()) + seq!['/'] + render_part(parts.last())
    }
}

/// The path's text: a leading `/` when absolute, then the components
/// joined with `/`.
pub open spec fn render_path(p: PathV) -> Seq<char> {
    if p.absolute {
        seq!['/'] + render_parts(p.parts)
    } else {
        render_parts(p.parts)
    }
}

impl LexPath {
    /// Write the path out as text.
    pub fn render(&self) -> (r: String)
        ensures
            r@ == render_path(self@),
    {
        let ghost pv = parts_view(self.parts@);
        let ghost prefix: Seq<char> = if self.absolute {
            seq!['/']
        } else {
            Seq::empty()
        };
        let mut s = String::new();
        if self.absolute {
            s.append("/");
        }
        proof {
            reveal_strlit("/");
            reveal_strlit(".");
            reveal_strlit("..");
            assert(s@ =~= prefix + render_parts(pv.take(0)));
        }
        let mut i: usize = 0;
        while i < self.parts.len()
            invariant
                i <= self.parts.len(),
                pv == parts_view(self.parts@),
                pv.len() == self.parts.len(),
                prefix == if self.absolute {
                    seq!['/']
                } else {
                    Seq::<char>::empty()
                },
                s@ == prefix + render_parts(pv.take(i as int)),
            decreases self.parts.len() - i,
        {
            if i > 0 {
                s.append("/");
            }
            match &self.parts[i] {
                Part::CurDir => s.append("."),
                Part::ParentDir => s.append(".."),
                Part::Normal(n) => s.append(n.as_str()),
            }
            proof {
                reveal_strlit("/");
                reveal_strlit(".");
                reveal_strlit("..");
                assert(pv.take(i + 1).drop_last() =~= pv.take(i as int));
                assert(pv.take(i + 1).last() == pv[i as int]);
                assert(pv[i as int] == self.parts@[i as int]@);
                if i == 0 {
                    assert(render_parts(pv.take(1)) == render_part(pv[0]));
                    assert(s@ =~= prefix + render_parts(pv.take(1)));
                } else {
                    assert(render_parts(pv.take(i + 1)) == render_parts(pv.take(i as int))
                        + seq!['/'] + render_part(pv[i as int]));
                    assert(s@ =~= prefix + render_parts(pv.take(i + 1)));
                }
            }
            i += 1;
        }
        proof {
            assert(pv.take(pv.len() as int) =~= pv);
        }
        s
    }
}

/// True when every component is a normal named one, as for any path walked
/// from a canonicalized root.
pub open spec fn all_normal(parts: Seq<PartV>) -> bool {
    forall|i: int| 0 <= i < parts.len() ==> parts[i] is Normal
}

/// A run of parent-directory markers.
pub open spec fn ascents(n: nat) -> Seq<PartV> {
    Seq::new(n, |k: int| PartV::ParentDir)
}

/// Lexical normalization: current-directory markers vanish, and a
/// parent-directory marker cancels a preceding normal component.
pub open spec fn lexnorm(parts: Seq<PartV>) -> Seq<PartV>
    decreases parts.len(),
{
    if parts.len() == 0 {
        Seq::empty()
    } else {
        let p = lexnorm(parts.drop_last());
        match parts.last() {
            PartV::CurDir => p,
            PartV::ParentDir => if p.len() > 0 && p.last() is Normal {
                p.drop_last()
            } else {
                p.push(PartV::ParentDir)
            },
            PartV::Normal(s) => p.push(PartV::Normal(s)),
        }
    }
}

/// A sequence of normal components is already normalized.
proof fn lemma_lexnorm_all_normal(s: Seq<PartV>)
    requires
        all_normal(s),
    ensures
        lexnorm(s) == s,
    decreases s.len(),
{
    if s.len() == 0 {
        assert(lexnorm(s) =~= s);
    } else {
        lemma_lexnorm_all_normal(s.drop_last());
        assert(s.last() is Normal);
        assert(lexnorm(s) =~= s);
    }
}

/// Normal components appended on the right pass through normalization.
proof fn lemma_lexnorm_append_normal(x: Seq<PartV>, y: Seq<PartV>)
    requires
        all_normal(y),
    ensures
        lexnorm(x + y) == lexnorm(x) + y,
    decreases y.len(),
{
    if y.len() == 0 {
        assert(x + y =~= x);
        assert(lexnorm(x) + y =~= lexnorm(x));
    } else {
        assert(all_normal(y.drop_last()));
        lemma_lexnorm_append_normal(x, y.drop_last());
        assert((x + y).drop_last() =~= x + y.drop_last());
        assert((x + y).last() == y.last());
        assert(y.last() is Normal);
        assert((lexnorm(x) + y.drop_last()).push(y.last()) =~= lexnorm(x) + y);
    }
}

/// Ascent markers appended to normal components cancel them from the right.
proof fn lemma_lexnorm_ascend(x: Seq<PartV>, m: nat)
    requires
        all_normal(x),
        m <= x.len(),
    ensures
        lexnorm(x + ascents(m)) == x.take(x.len() - m),
    decreases m,
{
    if m == 0 {
        assert(x + ascents(0) =~= x);
        lemma_lexnorm_all_normal(x);
        assert(x.take(x.len() - 0) =~= x);
    } else {
        lemma_lexnorm_ascend(x, (m - 1) as nat);
        let s = x + ascents(m);
        assert(s.drop_last() =~= x + ascents((m - 1) as nat));
        assert(s.last() == PartV::ParentDir);
        let p = lexnorm(x + ascents((m - 1) as nat));
        assert(p == x.take(x.len() - (m - 1)));
        assert(p.len() == x.len() - m + 1 > 0);
        assert(p.last() == x[x.len() - m]);
        assert(p.last() is Normal);
        assert(p.drop_last() =~= x.take(x.len() - m));
    }
}

/// When the path side is exhausted, the result is one ascent per remaining
/// base component, whatever those components are.
proof fn lemma_rel_empty_path(pb: Seq<PartV>, d: bool)
    ensures
        spec_rel(Seq::empty(), pb, d) == Some(ascents(pb.len())),
    decreases pb.len(),
{
    if pb.len() == 0 {
        assert(Seq::<PartV>::empty() =~= ascents(0));
    } else {
        lemma_rel_empty_path(pb.drop_first(), d);
        assert(seq![PartV::ParentDir] + ascents(pb.drop_first().len()) =~= ascents(pb.len()));
    }
}

/// For paths of normal components, the relative path always exists and has
/// the shape "ascend past the base's unshared tail, then descend the
/// path's unshared tail"; `c` is the length of the shared prefix.
proof fn lemma_rel_shape(pa: Seq<PartV>, pb: Seq<PartV>) -> (c: int)
    requires
        all_normal(pa),
        all_normal(pb),
    ensures
        0 <= c <= pa.len(),
        c <= pb.len(),
        pa.take(c) == pb.take(c),
        spec_rel(pa, pb, false) == Some(ascents((pb.len() - c) as nat) + pa.skip(c)),
    decreases pa.len() + pb.len(),
{
    if pa.len() == 0 && pb.len() == 0 {
        assert(ascents(0) + pa.skip(0) =~= Seq::<PartV>::empty());
        assert(pa.take(0) =~= pb.take(0));
        0
    } else if pa.len() > 0 && pb.len() == 0 {
        assert(ascents(0) + pa.skip(0) =~= pa);
        assert(pa.take(0) =~= pb.take(0));
        0
    } else if pa.len() == 0 {
        lemma_rel_empty_path(pb, false);
        assert(pa =~= Seq::<PartV>::empty());
        assert(pa.skip(0) =~= Seq::<PartV>::empty());
        assert(ascents(pb.len()) + pa.skip(0) =~= ascents(pb.len()));
        assert(pa.take(0) =~= pb.take(0));
        0
    } else {
        let a = pa.first();
        let b = pb.first();
        if a == b {
            assert(all_normal(pa.drop_first()));
            assert(all_normal(pb.drop_first()));
            let c0 = lemma_rel_shape(pa.drop_first(), pb.drop_first());
            let c = c0 + 1;
            assert forall|j: int| 0 <= j < c implies pa.take(c)[j] == pb.take(c)[j] by {
                if j == 0 {
                    assert(pa[0] == pb[0]);
                } else {
                    assert(pa.drop_first().take(c0)[j - 1] == pb.drop_first().take(c0)[j - 1]);
                    assert(pa.drop_first()[j - 1] == pa[j]);
                    assert(pb.drop_first()[j - 1] == pb[j]);
                }
            }
            assert(pa.take(c) =~= pb.take(c));
            assert(pa.drop_first().skip(c0) =~= pa.skip(c));
            assert(spec_rel(pa, pb, false) == spec_rel(pa.drop_first(), pb.drop_first(), false));
            assert(spec_rel(pa, pb, false) == Some(ascents((pb.len() - c) as nat) + pa.skip(c)))
                by {
                assert((pb.drop_first().len() - c0) as nat == (pb.len() - c) as nat);
            }
            c
        } else {
            assert(b is Normal);
            assert(b != PartV::CurDir && b != PartV::ParentDir);
            assert(spec_rel(pa, pb, false) == Some(
                Seq::new(pb.len(), |i: int| PartV::ParentDir) + pa,
            ));
            assert(Seq::new(pb.len(), |i: int| PartV::ParentDir) =~= ascents(pb.len()));
            assert(pa.skip(0) =~= pa);
            assert(pa.take(0) =~= pb.take(0));
            0
        }
    }
}

/// Round trip: for two paths of matching absoluteness made of normal
/// components, joining the base with the computed relative path and
/// normalizing the result yields the original path's components.
pub proof fn lemma_relative_round_trip(path: PathV, base: PathV)
    requires
        path.absolute == base.absolute,
        all_normal(path.parts),
        all_normal(base.parts),
    ensures
        spec_get_relative(path, base) is Some,
        lexnorm(spec_join(base, spec_get_relative(path, base).unwrap()).parts) == path.parts,
{
    let pa = path.parts;
    let pb = base.parts;
    let c = lemma_rel_shape(pa, pb);
    let m = (pb.len() - c) as nat;
    let r = ascents(m) + pa.skip(c);
    assert(spec_get_relative(path, base) == Some(PathV { absolute: false, parts: r }));
    assert(spec_join(base, PathV { absolute: false, parts: r }).parts == pb + r);
    assert(pb + r =~= (pb + ascents(m)) + pa.skip(c));
    assert(all_normal(pa.skip(c)));
    lemma_lexnorm_append_normal(pb + ascents(m), pa.skip(c));
    lemma_lexnorm_ascend(pb, m);
    assert(lexnorm(pb + r) == pb.take(c) + pa.skip(c));
    assert(pb.take(c) + pa.skip(c) =~= pa) by {
        assert(pb.take(c) == pa.take(c));
        assert(pa.take(c) + pa.skip(c) =~= pa);
    }
}

} // verus!
