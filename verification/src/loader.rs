//! Loading the facts of a function from the text of its fact files.
//!
//! A fact file is a table without a header row: one fact per row, the
//! fields parted by tabs. Each field is the label of a region, a loan or a
//! point. Regions and loans carry their number in the label; points are
//! interned in the order in which they are met.

use vstd::prelude::*;
use crate::atoms::{Atom, Loan, Point, PointIndex, Region};
use crate::facts::AllInputFacts;
use crate::interner::InternerTable;
use crate::labels::{loan_number, point_of, region_number};
use crate::relation::extends;

verus! {

/// The error of the `csv` crate, `csv::Error`. Nothing is claimed of it:
/// it is only told from a success.
#[verifier::external_type_specification]
#[verifier::external_body]
pub struct ExCsvError(csv::Error);

/// The records that the reader of the `csv` crate finds in `content`, each
/// as its fields, or nothing where the reader reports an error.
pub uninterp spec fn csv_records(content: Seq<u8>, delimiter: u8, has_headers: bool) -> Option<
    Seq<Seq<Seq<char>>>,
>;

/// Reads the records of `content` with `csv::ReaderBuilder`, configured by
/// `delimiter` and `has_headers`, through `csv::Reader::records`. The
/// contract claims only that the outcome is determined by the three
/// arguments: the rows are called `csv_records`, and an error of the reader
/// means that there are none.
#[verifier::external_body]
fn read_records(content: &[u8], delimiter: u8, has_headers: bool) -> (rows: Result<
    Vec<Vec<String>>,
    csv::Error,
>)
    ensures
        rows matches Ok(r) ==> csv_records(content@, delimiter, has_headers) == Some(
            r.deep_view(),
        ),
        rows is Err ==> csv_records(content@, delimiter, has_headers) is None,
{
    let mut builder = csv::ReaderBuilder::new();
    builder.delimiter(delimiter).has_headers(has_headers);
    let mut reader = builder.from_reader(content);
    let mut rows: Vec<Vec<String>> = Vec::new();
    for record in reader.records() {
        rows.push(record?.iter().map(|field| field.to_string()).collect());
    }
    Ok(rows)
}

/// The byte that parts the fields of a row: the tab.
pub const FIELD_DELIMITER: u8 = 9;

/// Why facts could not be loaded.
#[derive(Debug, PartialEq, Eq)]
pub enum FactError {
    /// The text of a fact file is no table.
    Table,
    /// The row with the number `row`, counted from 0, of the relation with
    /// the number `relation`, in the order in which the relations are
    /// loaded, has not the fields that its relation asks for.
    Row { relation: usize, row: usize },
}

/// Takes the text of a fact file apart into its rows, and each row into its
/// fields.
pub fn load_facts_from_file(content: &[u8]) -> (rows: Result<Vec<Vec<String>>, FactError>)
    ensures
        rows matches Ok(r) ==> csv_records(content@, FIELD_DELIMITER, false) == Some(
            r.deep_view(),
        ),
        rows matches Err(e) ==> csv_records(content@, FIELD_DELIMITER, false) is None && e
            == FactError::Table,
{
    match read_records(content, FIELD_DELIMITER, false) {
        Ok(rows) => Ok(rows),
        Err(_) => Err(FactError::Table),
    }
}

/// The kind of atom that a field of a row names.
#[derive(Clone, Copy, Debug, PartialEq, Eq, Structural)]
pub enum AtomKind {
    /// The field is the label of a region.
    Region,
    /// The field is the label of a loan.
    Loan,
    /// The field is the label of a point.
    Point,
}

/// The bytes of a label.
pub open spec fn label_bytes(label: Seq<char>) -> Seq<u8> {
    vstd::utf8::encode_utf8(label)
}

/// Whether `label` is the label of an atom of the kind `kind`.
pub open spec fn field_wellformed(kind: AtomKind, label: Seq<char>) -> bool {
    match kind {
        AtomKind::Region => region_number(label_bytes(label)) is Some,
        AtomKind::Loan => loan_number(label_bytes(label)) is Some,
        AtomKind::Point => point_of(label_bytes(label)) is Some,
    }
}

/// Whether `row` has the fields that `schema` asks for.
pub open spec fn row_wellformed(schema: Seq<AtomKind>, row: Seq<Seq<char>>) -> bool {
    &&& row.len() == schema.len()
    &&& forall|j: int| 0 <= j < row.len() ==> field_wellformed(schema[j], #[trigger] row[j])
}

/// Whether `value` is the number that stands for `label`: the number in the
/// label of a region or a loan, the index in `table` of a point.
pub open spec fn field_decoded(
    kind: AtomKind,
    label: Seq<char>,
    table: Seq<Point>,
    value: usize,
) -> bool {
    match kind {
        AtomKind::Region => region_number(label_bytes(label)) == Some(value),
        AtomKind::Loan => loan_number(label_bytes(label)) == Some(value),
        AtomKind::Point => value < table.len() && point_of(label_bytes(label)) == Some(
            table[value as int],
        ),
    }
}

/// Whether `values` holds the numbers that stand for the fields of `row`.
pub open spec fn row_decoded(
    schema: Seq<AtomKind>,
    row: Seq<Seq<char>>,
    table: Seq<Point>,
    values: Seq<usize>,
) -> bool {
    &&& row.len() == schema.len()
    &&& values.len() == schema.len()
    &&& forall|j: int|
        0 <= j < row.len() ==> field_decoded(schema[j], row[j], table, #[trigger] values[j])
}

/// The table after the points `points` are interned, in their order.
pub open spec fn interned_after(table: Seq<Point>, points: Seq<Point>) -> Seq<Point>
    decreases points.len(),
{
    if points.len() == 0 {
        table
    } else {
        let before = interned_after(table, points.drop_last());
        if before.contains(points.last()) {
            before
        } else {
            before.push(points.last())
        }
    }
}

/// The points that the first `n` fields of `row` name, in their order.
pub open spec fn row_points(schema: Seq<AtomKind>, row: Seq<Seq<char>>, n: int) -> Seq<Point>
    decreases n,
{
    if n <= 0 || n > row.len() || n > schema.len() {
        Seq::empty()
    } else {
        let before = row_points(schema, row, n - 1);
        match (schema[n - 1], point_of(label_bytes(row[n - 1]))) {
            (AtomKind::Point, Some(p)) => before.push(p),
            _ => before,
        }
    }
}

/// The points that the first `n` rows of `rows` name, in their order.
pub open spec fn rows_points(schema: Seq<AtomKind>, rows: Seq<Seq<Seq<char>>>, n: int) -> Seq<
    Point,
>
    decreases n,
{
    if n <= 0 || n > rows.len() {
        Seq::empty()
    } else {
        rows_points(schema, rows, n - 1) + row_points(schema, rows[n - 1], rows[n - 1].len() as int)
    }
}

/// Interning two runs of points one after the other is interning the whole.
pub proof fn lemma_interned_after_both(table: Seq<Point>, first: Seq<Point>, second: Seq<Point>)
    ensures
        interned_after(interned_after(table, first), second) == interned_after(
            table,
            first + second,
        ),
    decreases second.len(),
{
    if second.len() == 0 {
    } else {
        lemma_interned_after_both(table, first, second.drop_last());
        assert((first + second).drop_last() =~= first + second.drop_last());
    }
}

/// Interning never moves a point that is in the table.
pub proof fn lemma_interned_after_extends(table: Seq<Point>, points: Seq<Point>)
    ensures
        extends(interned_after(table, points), table),
    decreases points.len(),
{
    if points.len() > 0 {
        lemma_interned_after_extends(table, points.drop_last());
    }
}

/// The store in which the points of a function are interned.
pub struct Interner {
    /// The points, each under its index.
    pub points: InternerTable<Point, PointIndex>,
}

impl Interner {
    /// The invariant of the store: that of its table.
    pub open spec fn wf(&self) -> bool {
        self.points.wf()
    }

    /// A store without points.
    pub fn new() -> (interner: Self)
        ensures
            interner.wf(),
            interner.points@.len() == 0,
    {
        Self { points: InternerTable::new() }
    }

    /// The index of `point`, which is interned.
    pub fn get_point_index(&self, point: &Point) -> (index: PointIndex)
        requires
            self.wf(),
            self.points@.contains(*point),
        ensures
            index.0 < self.points@.len(),
            self.points@[index.0 as int] == *point,
    {
        self.points.get_index(point)
    }

    /// The point with the index `index`, which is in use.
    pub fn get_point(&self, index: PointIndex) -> (point: &Point)
        requires
            index.0 < self.points@.len(),
        ensures
            *point == self.points@[index.0 as int],
    {
        self.points.get_element(index)
    }

    /// The number that stands for the field `label` of the kind `kind`; a
    /// point is interned.
    pub fn intern(&mut self, kind: AtomKind, label: &str) -> (value: Result<usize, ()>)
        requires
            old(self).wf(),
        ensures
            final(self).wf(),
            value is Ok <==> field_wellformed(kind, label@),
            value matches Ok(v) ==> field_decoded(kind, label@, final(self).points@, v),
            kind == AtomKind::Point && value is Ok ==> final(self).points@ == interned_after(
                old(self).points@,
                seq![point_of(label_bytes(label@)).unwrap()],
            ),
            kind != AtomKind::Point || value is Err ==> final(self).points@ == old(self).points@,
    {
        match kind {
            AtomKind::Region => match Region::from_str(label) {
                Ok(region) => Ok(region.0),
                Err(_) => Err(()),
            },
            AtomKind::Loan => match Loan::from_str(label) {
                Ok(loan) => Ok(loan.0),
                Err(_) => Err(()),
            },
            AtomKind::Point => match Point::from_str(label) {
                Ok(point) => {
                    let index = self.points.get_or_create_index(point);
                    proof {
                        let one = seq![point];
                        assert(interned_after(old(self).points@, one.drop_last()) == old(
                            self,
                        ).points@);
                    }
                    Ok(index.0)
                },
                Err(_) => Err(()),
            },
        }
    }

    /// The numbers that stand for the fields of `row`, which are of the
    /// kinds `schema`. The points of the row are interned in their order.
    pub fn intern_row(&mut self, schema: &Vec<AtomKind>, row: &Vec<String>) -> (values: Result<
        Vec<usize>,
        (),
    >)
        requires
            old(self).wf(),
        ensures
            final(self).wf(),
            extends(final(self).points@, old(self).points@),
            values is Ok <==> row_wellformed(schema@, row.deep_view()),
            values matches Ok(v) ==> row_decoded(
                schema@,
                row.deep_view(),
                final(self).points@,
                v@,
            ) && final(self).points@ == interned_after(
                old(self).points@,
                row_points(schema@, row.deep_view(), row@.len() as int),
            ),
    {
        let ghost fields = row.deep_view();
        let ghost start = self.points@;
        if row.len() != schema.len() {
            return Err(());
        }
        let mut values: Vec<usize> = Vec::new();
        let mut j: usize = 0;
        while j < row.len()
            invariant
                j <= row.len(),
                row.len() == schema.len(),
                fields == row.deep_view(),
                fields.len() == row@.len(),
                start == old(self).points@,
                self.wf(),
                values@.len() == j,
                forall|k: int| 0 <= k < j ==> field_wellformed(schema@[k], #[trigger] fields[k]),
                forall|k: int|
                    0 <= k < j ==> field_decoded(
                        schema@[k],
                        fields[k],
                        self.points@,
                        #[trigger] values@[k],
                    ),
                self.points@ == interned_after(start, row_points(schema@, fields, j as int)),
            decreases row.len() - j,
        {
            let ghost before = self.points@;
            match self.intern(schema[j], row[j].as_str()) {
                Ok(v) => {
                    proof {
                        let pts = row_points(schema@, fields, j as int);
                        if schema@[j as int] == AtomKind::Point {
                            let p = point_of(label_bytes(fields[j as int])).unwrap();
                            lemma_interned_after_both(start, pts, seq![p]);
                            assert(pts + seq![p] =~= pts.push(p));
                        }
                        if schema@[j as int] == AtomKind::Point {
                            lemma_interned_after_extends(
                                before,
                                seq![point_of(label_bytes(fields[j as int])).unwrap()],
                            );
                        }
                    }
                    values.push(v);
                },
                Err(_) => {
                    proof {
                        lemma_interned_after_extends(
                            start,
                            row_points(schema@, fields, j as int),
                        );
                    }
                    return Err(());
                },
            }
            j += 1;
        }
        proof {
            lemma_interned_after_extends(start, row_points(schema@, fields, j as int));
        }
        Ok(values)
    }

    /// The numbers that stand for the fields of each row of `rows`. The
    /// points are interned in the order of the rows. The error is the number
    /// of the first row that has not the fields that `schema` asks for.
    pub fn intern_rows(&mut self, schema: &Vec<AtomKind>, rows: &Vec<Vec<String>>) -> (values:
        Result<Vec<Vec<usize>>, usize>)
        requires
            old(self).wf(),
        ensures
            final(self).wf(),
            extends(final(self).points@, old(self).points@),
            values matches Ok(v) ==> {
                &&& v@.len() == rows@.len()
                &&& forall|i: int|
                    0 <= i < rows@.len() ==> row_decoded(
                        schema@,
                        #[trigger] rows.deep_view()[i],
                        final(self).points@,
                        v@[i]@,
                    )
                &&& final(self).points@ == interned_after(
                    old(self).points@,
                    rows_points(schema@, rows.deep_view(), rows@.len() as int),
                )
            },
            values matches Err(bad) ==> {
                &&& bad < rows@.len()
                &&& !row_wellformed(schema@, rows.deep_view()[bad as int])
                &&& forall|i: int|
                    0 <= i < bad ==> row_wellformed(schema@, #[trigger] rows.deep_view()[i])
            },
    {
        let ghost table = rows.deep_view();
        let ghost start = self.points@;
        let mut values: Vec<Vec<usize>> = Vec::new();
        let mut i: usize = 0;
        while i < rows.len()
            invariant
                i <= rows.len(),
                table == rows.deep_view(),
                table.len() == rows@.len(),
                start == old(self).points@,
                self.wf(),
                extends(self.points@, start),
                values@.len() == i,
                forall|k: int| 0 <= k < i ==> row_wellformed(schema@, #[trigger] table[k]),
                forall|k: int|
                    0 <= k < i ==> row_decoded(schema@, #[trigger] table[k], self.points@, values@[k]@),
                self.points@ == interned_after(start, rows_points(schema@, table, i as int)),
            decreases rows.len() - i,
        {
            let ghost before = self.points@;
            let ghost done = values@;
            match self.intern_row(schema, &rows[i]) {
                Ok(v) => {
                    values.push(v);
                    proof {
                        lemma_interned_after_both(
                            start,
                            rows_points(schema@, table, i as int),
                            row_points(schema@, table[i as int], table[i as int].len() as int),
                        );
                    }
                },
                Err(_) => {
                    return Err(i);
                },
            }
            i += 1;
        }
        Ok(values)
    }
}

/// The rows of the fact files of one function, each row as its fields.
pub struct RawFacts {
    /// The rows of the file `borrow_region.facts`.
    pub borrow_region: Vec<Vec<String>>,
    /// The rows of the file `universal_region.facts`.
    pub universal_region: Vec<Vec<String>>,
    /// The rows of the file `cfg_edge.facts`.
    pub cfg_edge: Vec<Vec<String>>,
    /// The rows of the file `killed.facts`.
    pub killed: Vec<Vec<String>>,
    /// The rows of the file `outlives.facts`.
    pub outlives: Vec<Vec<String>>,
    /// The rows of the file `region_live_at.facts`.
    pub region_live_at: Vec<Vec<String>>,
    /// The rows of the file `invalidates.facts`.
    pub invalidates: Vec<Vec<String>>,
}

/// The kinds of the fields of a row of the relation with the number
/// `relation`, in the order in which the relations are loaded:
/// `borrow_region`, `universal_region`, `cfg_edge`, `killed`, `outlives`,
/// `region_live_at`, `invalidates`.
pub open spec fn schema_of(relation: int) -> Seq<AtomKind> {
    if relation == 0 {
        seq![AtomKind::Region, AtomKind::Loan, AtomKind::Point]
    } else if relation == 1 {
        seq![AtomKind::Region]
    } else if relation == 2 {
        seq![AtomKind::Point, AtomKind::Point]
    } else if relation == 3 {
        seq![AtomKind::Loan, AtomKind::Point]
    } else if relation == 4 {
        seq![AtomKind::Region, AtomKind::Region, AtomKind::Point]
    } else if relation == 5 {
        seq![AtomKind::Region, AtomKind::Point]
    } else {
        seq![AtomKind::Point, AtomKind::Loan]
    }
}

impl RawFacts {
    /// The rows of the relation with the number `relation`.
    pub open spec fn rows_of(&self, relation: int) -> Seq<Seq<Seq<char>>> {
        if relation == 0 {
            self.borrow_region.deep_view()
        } else if relation == 1 {
            self.universal_region.deep_view()
        } else if relation == 2 {
            self.cfg_edge.deep_view()
        } else if relation == 3 {
            self.killed.deep_view()
        } else if relation == 4 {
            self.outlives.deep_view()
        } else if relation == 5 {
            self.region_live_at.deep_view()
        } else {
            self.invalidates.deep_view()
        }
    }

    /// The points that the first `n` relations name, in the order in which
    /// they are met.
    pub open spec fn points(&self, n: int) -> Seq<Point>
        decreases n,
    {
        if n <= 0 {
            Seq::empty()
        } else {
            self.points(n - 1) + rows_points(
                schema_of(n - 1),
                self.rows_of(n - 1),
                self.rows_of(n - 1).len() as int,
            )
        }
    }

    /// Whether every row of the first `n` relations has the fields that its
    /// relation asks for.
    pub open spec fn wellformed(&self, n: int) -> bool {
        forall|relation: int, row: int|
            0 <= relation < n && 0 <= row < self.rows_of(relation).len() ==> row_wellformed(
                schema_of(relation),
                #[trigger] self.rows_of(relation)[row],
            )
    }
}

/// Whether `after` is `before` with a fact for each row of `rows` behind it.
pub open spec fn loaded1<A: Atom>(
    schema: Seq<AtomKind>,
    rows: Seq<Seq<Seq<char>>>,
    table: Seq<Point>,
    before: Seq<A>,
    after: Seq<A>,
) -> bool {
    &&& after.len() == before.len() + rows.len()
    &&& extends(after, before)
    &&& forall|i: int|
        0 <= i < rows.len() ==> row_decoded(
            schema,
            #[trigger] rows[i],
            table,
            seq![after[before.len() + i].spec_index()],
        )
}

/// Whether `after` is `before` with a fact for each row of `rows` behind it.
pub open spec fn loaded2<A: Atom, B: Atom>(
    schema: Seq<AtomKind>,
    rows: Seq<Seq<Seq<char>>>,
    table: Seq<Point>,
    before: Seq<(A, B)>,
    after: Seq<(A, B)>,
) -> bool {
    &&& after.len() == before.len() + rows.len()
    &&& extends(after, before)
    &&& forall|i: int|
        0 <= i < rows.len() ==> row_decoded(
            schema,
            #[trigger] rows[i],
            table,
            seq![after[before.len() + i].0.spec_index(), after[before.len() + i].1.spec_index()],
        )
}

/// Whether `after` is `before` with a fact for each row of `rows` behind it.
pub open spec fn loaded3<A: Atom, B: Atom, C: Atom>(
    schema: Seq<AtomKind>,
    rows: Seq<Seq<Seq<char>>>,
    table: Seq<Point>,
    before: Seq<(A, B, C)>,
    after: Seq<(A, B, C)>,
) -> bool {
    &&& after.len() == before.len() + rows.len()
    &&& extends(after, before)
    &&& forall|i: int|
        0 <= i < rows.len() ==> row_decoded(
            schema,
            #[trigger] rows[i],
            table,
            seq![
                after[before.len() + i].0.spec_index(),
                after[before.len() + i].1.spec_index(),
                after[before.len() + i].2.spec_index(),
            ],
        )
}

/// Puts behind `rel` the atom of each row of `values`.
fn extend1<A: Atom>(
    rel: &mut Vec<A>,
    values: &Vec<Vec<usize>>,
    Ghost(schema): Ghost<Seq<AtomKind>>,
    Ghost(rows): Ghost<Seq<Seq<Seq<char>>>>,
    Ghost(table): Ghost<Seq<Point>>,
)
    requires
        schema.len() == 1,
        values@.len() == rows.len(),
        forall|i: int| 0 <= i < rows.len() ==> row_decoded(schema, #[trigger] rows[i], table, values@[i]@),
    ensures
        loaded1(schema, rows, table, old(rel)@, final(rel)@),
{
    let ghost before = rel@;
    let mut i: usize = 0;
    while i < values.len()
        invariant
            i <= values.len(),
            schema.len() == 1,
            values@.len() == rows.len(),
            forall|k: int|
                0 <= k < rows.len() ==> row_decoded(schema, #[trigger] rows[k], table, values@[k]@),
            rel@.len() == before.len() + i,
            extends(rel@, before),
            forall|k: int|
                0 <= k < i ==> row_decoded(
                    schema,
                    #[trigger] rows[k],
                    table,
                    seq![rel@[before.len() + k].spec_index()],
                ),
        decreases values.len() - i,
    {
        proof {
            assert(row_decoded(schema, rows[i as int], table, values@[i as int]@));
        }
        let a = A::from_index(values[i][0]);
        rel.push(a);
        i += 1;
    }
}

/// Puts behind `rel` the pair of atoms of each row of `values`.
fn extend2<A: Atom, B: Atom>(
    rel: &mut Vec<(A, B)>,
    values: &Vec<Vec<usize>>,
    Ghost(schema): Ghost<Seq<AtomKind>>,
    Ghost(rows): Ghost<Seq<Seq<Seq<char>>>>,
    Ghost(table): Ghost<Seq<Point>>,
)
    requires
        schema.len() == 2,
        values@.len() == rows.len(),
        forall|i: int| 0 <= i < rows.len() ==> row_decoded(schema, #[trigger] rows[i], table, values@[i]@),
    ensures
        loaded2(schema, rows, table, old(rel)@, final(rel)@),
{
    let ghost before = rel@;
    let mut i: usize = 0;
    while i < values.len()
        invariant
            i <= values.len(),
            schema.len() == 2,
            values@.len() == rows.len(),
            forall|k: int|
                0 <= k < rows.len() ==> row_decoded(schema, #[trigger] rows[k], table, values@[k]@),
            rel@.len() == before.len() + i,
            extends(rel@, before),
            forall|k: int|
                0 <= k < i ==> row_decoded(
                    schema,
                    #[trigger] rows[k],
                    table,
                    seq![rel@[before.len() + k].0.spec_index(), rel@[before.len() + k].1.spec_index()],
                ),
        decreases values.len() - i,
    {
        proof {
            assert(row_decoded(schema, rows[i as int], table, values@[i as int]@));
        }
        let a = A::from_index(values[i][0]);
        let b = B::from_index(values[i][1]);
        rel.push((a, b));
        i += 1;
    }
}

/// Puts behind `rel` the triple of atoms of each row of `values`.
fn extend3<A: Atom, B: Atom, C: Atom>(
    rel: &mut Vec<(A, B, C)>,
    values: &Vec<Vec<usize>>,
    Ghost(schema): Ghost<Seq<AtomKind>>,
    Ghost(rows): Ghost<Seq<Seq<Seq<char>>>>,
    Ghost(table): Ghost<Seq<Point>>,
)
    requires
        schema.len() == 3,
        values@.len() == rows.len(),
        forall|i: int| 0 <= i < rows.len() ==> row_decoded(schema, #[trigger] rows[i], table, values@[i]@),
    ensures
        loaded3(schema, rows, table, old(rel)@, final(rel)@),
{
    let ghost before = rel@;
    let mut i: usize = 0;
    while i < values.len()
        invariant
            i <= values.len(),
            schema.len() == 3,
            values@.len() == rows.len(),
            forall|k: int|
                0 <= k < rows.len() ==> row_decoded(schema, #[trigger] rows[k], table, values@[k]@),
            rel@.len() == before.len() + i,
            extends(rel@, before),
            forall|k: int|
                0 <= k < i ==> row_decoded(
                    schema,
                    #[trigger] rows[k],
                    table,
                    seq![
                        rel@[before.len() + k].0.spec_index(),
                        rel@[before.len() + k].1.spec_index(),
                        rel@[before.len() + k].2.spec_index(),
                    ],
                ),
        decreases values.len() - i,
    {
        proof {
            assert(row_decoded(schema, rows[i as int], table, values@[i as int]@));
        }
        let a = A::from_index(values[i][0]);
        let b = B::from_index(values[i][1]);
        let c = C::from_index(values[i][2]);
        rel.push((a, b, c));
        i += 1;
    }
}

/// The kinds of the fields of a row of the relation with the number
/// `relation`.
pub fn schema(relation: usize) -> (kinds: Vec<AtomKind>)
    ensures
        kinds@ == schema_of(relation as int),
{
    let mut kinds: Vec<AtomKind> = Vec::new();
    if relation == 0 {
        kinds.push(AtomKind::Region);
        kinds.push(AtomKind::Loan);
        kinds.push(AtomKind::Point);
    } else if relation == 1 {
        kinds.push(AtomKind::Region);
    } else if relation == 2 {
        kinds.push(AtomKind::Point);
        kinds.push(AtomKind::Point);
    } else if relation == 3 {
        kinds.push(AtomKind::Loan);
        kinds.push(AtomKind::Point);
    } else if relation == 4 {
        kinds.push(AtomKind::Region);
        kinds.push(AtomKind::Region);
        kinds.push(AtomKind::Point);
    } else if relation == 5 {
        kinds.push(AtomKind::Region);
        kinds.push(AtomKind::Point);
    } else {
        kinds.push(AtomKind::Point);
        kinds.push(AtomKind::Loan);
    }
    kinds
}

/// The loader of the facts of one function.
pub struct FactLoader {
    /// The store in which the points are interned.
    pub interner: Interner,
    /// The facts that are loaded so far.
    pub facts: AllInputFacts,
}

impl FactLoader {
    /// The invariant of the loader: that of its store.
    pub open spec fn wf(&self) -> bool {
        self.interner.wf()
    }

    /// A loader that has loaded nothing yet.
    pub fn new() -> (loader: Self)
        ensures
            loader.wf(),
            loader.interner.points@.len() == 0,
            loader.facts.borrow_region@.len() == 0,
            loader.facts.universal_region@.len() == 0,
            loader.facts.cfg_edge@.len() == 0,
            loader.facts.killed@.len() == 0,
            loader.facts.outlives@.len() == 0,
            loader.facts.region_live_at@.len() == 0,
            loader.facts.invalidates@.len() == 0,
    {
        Self { interner: Interner::new(), facts: AllInputFacts::new() }
    }

    /// Interns the rows of one relation.
    fn stage(&mut self, relation: usize, rows: &Vec<Vec<String>>) -> (values: Result<
        Vec<Vec<usize>>,
        FactError,
    >)
        requires
            old(self).wf(),
            relation < 7,
        ensures
            final(self).wf(),
            final(self).facts == old(self).facts,
            extends(final(self).interner.points@, old(self).interner.points@),
            values matches Ok(v) ==> {
                &&& v@.len() == rows@.len()
                &&& forall|i: int|
                    0 <= i < rows@.len() ==> row_decoded(
                        schema_of(relation as int),
                        #[trigger] rows.deep_view()[i],
                        final(self).interner.points@,
                        v@[i]@,
                    )
                &&& final(self).interner.points@ == interned_after(
                    old(self).interner.points@,
                    rows_points(schema_of(relation as int), rows.deep_view(), rows@.len() as int),
                )
            },
            values matches Err(e) ==> {
                &&& e matches FactError::Row { relation: r, row: bad }
                &&& r == relation
                &&& bad < rows@.len()
                &&& !row_wellformed(schema_of(relation as int), rows.deep_view()[bad as int])
                &&& forall|i: int|
                    0 <= i < bad ==> row_wellformed(
                        schema_of(relation as int),
                        #[trigger] rows.deep_view()[i],
                    )
            },
    {
        let kinds = schema(relation);
        match self.interner.intern_rows(&kinds, rows) {
            Ok(values) => Ok(values),
            Err(row) => Err(FactError::Row { relation, row }),
        }
    }
}

/// A row that is decoded has the fields that its relation asks for.
pub proof fn lemma_decoded_is_wellformed(
    schema: Seq<AtomKind>,
    row: Seq<Seq<char>>,
    table: Seq<Point>,
    values: Seq<usize>,
)
    requires
        row_decoded(schema, row, table, values),
    ensures
        row_wellformed(schema, row),
{
    assert forall|j: int| 0 <= j < row.len() implies field_wellformed(
        schema[j],
        #[trigger] row[j],
    ) by {
        assert(field_decoded(schema[j], row[j], table, values[j]));
    }
}

/// Whether `after` holds the facts of `before`, and behind them a fact for
/// each row of `raw`, with the points as `table` numbers them.
pub open spec fn all_loaded(
    raw: &RawFacts,
    table: Seq<Point>,
    before: &AllInputFacts,
    after: &AllInputFacts,
) -> bool {
    &&& loaded3(schema_of(0), raw.rows_of(0), table, before.borrow_region@, after.borrow_region@)
    &&& loaded1(
        schema_of(1),
        raw.rows_of(1),
        table,
        before.universal_region@,
        after.universal_region@,
    )
    &&& loaded2(schema_of(2), raw.rows_of(2), table, before.cfg_edge@, after.cfg_edge@)
    &&& loaded2(schema_of(3), raw.rows_of(3), table, before.killed@, after.killed@)
    &&& loaded3(schema_of(4), raw.rows_of(4), table, before.outlives@, after.outlives@)
    &&& loaded2(schema_of(5), raw.rows_of(5), table, before.region_live_at@, after.region_live_at@)
    &&& loaded2(schema_of(6), raw.rows_of(6), table, before.invalidates@, after.invalidates@)
}

/// Whether `e` names the first row of `raw` that has not the fields that
/// its relation asks for.
pub open spec fn is_first_bad_row(raw: &RawFacts, e: FactError) -> bool {
    &&& e matches FactError::Row { relation, row }
    &&& relation < 7
    &&& row < raw.rows_of(relation as int).len()
    &&& !row_wellformed(schema_of(relation as int), raw.rows_of(relation as int)[row as int])
    &&& raw.wellformed(relation as int)
    &&& forall|i: int|
        0 <= i < row ==> row_wellformed(
            schema_of(relation as int),
            #[trigger] raw.rows_of(relation as int)[i],
        )
}

/// The numbers that stand for the rows of the seven relations.
struct Staged {
    borrow_region: Vec<Vec<usize>>,
    universal_region: Vec<Vec<usize>>,
    cfg_edge: Vec<Vec<usize>>,
    killed: Vec<Vec<usize>>,
    outlives: Vec<Vec<usize>>,
    region_live_at: Vec<Vec<usize>>,
    invalidates: Vec<Vec<usize>>,
}

/// Whether `values` holds, for each row of `rows`, the numbers that stand
/// for its fields.
spec fn rows_decoded(
    schema: Seq<AtomKind>,
    rows: Seq<Seq<Seq<char>>>,
    table: Seq<Point>,
    values: Seq<Vec<usize>>,
) -> bool {
    &&& values.len() == rows.len()
    &&& forall|i: int| 0 <= i < rows.len() ==> row_decoded(schema, #[trigger] rows[i], table, values[i]@)
}

impl Staged {
    /// Whether the numbers stand for the rows of `raw`, with the points as
    /// `table` numbers them.
    spec fn decodes(&self, raw: &RawFacts, table: Seq<Point>) -> bool {
        &&& rows_decoded(schema_of(0), raw.rows_of(0), table, self.borrow_region@)
        &&& rows_decoded(schema_of(1), raw.rows_of(1), table, self.universal_region@)
        &&& rows_decoded(schema_of(2), raw.rows_of(2), table, self.cfg_edge@)
        &&& rows_decoded(schema_of(3), raw.rows_of(3), table, self.killed@)
        &&& rows_decoded(schema_of(4), raw.rows_of(4), table, self.outlives@)
        &&& rows_decoded(schema_of(5), raw.rows_of(5), table, self.region_live_at@)
        &&& rows_decoded(schema_of(6), raw.rows_of(6), table, self.invalidates@)
    }
}

impl FactLoader {
    /// Whether the loader has come through the first `n` relations of `raw`
    /// since its store held `start`: their points are interned, and their
    /// rows have the fields that they ask for.
    spec fn staged_upto(&self, raw: &RawFacts, start: Seq<Point>, n: int) -> bool {
        &&& self.wf()
        &&& self.interner.points@ == interned_after(start, raw.points(n))
        &&& raw.wellformed(n)
    }

    /// Interns the rows of the relation with the number `relation`, after
    /// those of the relations before it.
    fn stage_next(
        &mut self,
        raw: &RawFacts,
        relation: usize,
        rows: &Vec<Vec<String>>,
        Ghost(start): Ghost<Seq<Point>>,
    ) -> (values: Result<Vec<Vec<usize>>, FactError>)
        requires
            relation < 7,
            rows.deep_view() == raw.rows_of(relation as int),
            old(self).staged_upto(raw, start, relation as int),
        ensures
            final(self).wf(),
            final(self).facts == old(self).facts,
            extends(final(self).interner.points@, old(self).interner.points@),
            values matches Ok(v) ==> {
                &&& final(self).staged_upto(raw, start, relation + 1)
                &&& rows_decoded(
                    schema_of(relation as int),
                    raw.rows_of(relation as int),
                    final(self).interner.points@,
                    v@,
                )
            },
            values matches Err(e) ==> is_first_bad_row(raw, e),
    {
        let values = self.stage(relation, rows);
        proof {
            if values is Ok {
                let v = values->Ok_0;
                lemma_interned_after_both(
                    start,
                    raw.points(relation as int),
                    rows_points(schema_of(relation as int), rows.deep_view(), rows@.len() as int),
                );
                assert forall|r: int, row: int|
                    0 <= r < relation + 1 && 0 <= row < raw.rows_of(r).len() implies row_wellformed(
                    schema_of(r),
                    #[trigger] raw.rows_of(r)[row],
                ) by {
                    if r == relation {
                        lemma_decoded_is_wellformed(
                            schema_of(r),
                            raw.rows_of(r)[row],
                            self.interner.points@,
                            v@[row]@,
                        );
                    }
                }
            }
        }
        values
    }

    /// Interns the rows of all relations, in the order in which the
    /// relations are loaded.
    fn stage_all(&mut self, raw: &RawFacts) -> (staged: Result<Staged, FactError>)
        requires
            old(self).wf(),
        ensures
            final(self).wf(),
            final(self).facts == old(self).facts,
            extends(final(self).interner.points@, old(self).interner.points@),
            staged matches Ok(values) ==> {
                &&& raw.wellformed(7)
                &&& values.decodes(raw, final(self).interner.points@)
                &&& final(self).interner.points@ == interned_after(
                    old(self).interner.points@,
                    raw.points(7),
                )
            },
            staged matches Err(e) ==> is_first_bad_row(raw, e),
    {
        let ghost start = self.interner.points@;
        let borrow_region = self.stage_next(raw, 0, &raw.borrow_region, Ghost(start))?;
        let ghost t0 = self.interner.points@;
        let universal_region = self.stage_next(raw, 1, &raw.universal_region, Ghost(start))?;
        let ghost t1 = self.interner.points@;
        let cfg_edge = self.stage_next(raw, 2, &raw.cfg_edge, Ghost(start))?;
        let ghost t2 = self.interner.points@;
        let killed = self.stage_next(raw, 3, &raw.killed, Ghost(start))?;
        let ghost t3 = self.interner.points@;
        let outlives = self.stage_next(raw, 4, &raw.outlives, Ghost(start))?;
        let ghost t4 = self.interner.points@;
        let region_live_at = self.stage_next(raw, 5, &raw.region_live_at, Ghost(start))?;
        let ghost t5 = self.interner.points@;
        let invalidates = self.stage_next(raw, 6, &raw.invalidates, Ghost(start))?;
        let ghost table = self.interner.points@;
        Ok(
            Staged {
                borrow_region,
                universal_region,
                cfg_edge,
                killed,
                outlives,
                region_live_at,
                invalidates,
            },
        )
    }

    /// Loads the facts of a function from the rows of its fact files.
    ///
    /// The relations are loaded in the order `borrow_region`,
    /// `universal_region`, `cfg_edge`, `killed`, `outlives`,
    /// `region_live_at`, `invalidates`, and the points are interned in the
    /// order in which they are met. Where a row has not the fields that its
    /// relation asks for, no fact is loaded, and the error names the first
    /// such row.
    pub fn load_all_facts(&mut self, raw: &RawFacts) -> (loaded: Result<(), FactError>)
        requires
            old(self).wf(),
        ensures
            final(self).wf(),
            extends(final(self).interner.points@, old(self).interner.points@),
            loaded is Ok <==> raw.wellformed(7),
            loaded is Ok ==> all_loaded(
                raw,
                final(self).interner.points@,
                &old(self).facts,
                &final(self).facts,
            ),
            loaded is Ok ==> final(self).interner.points@ == interned_after(
                old(self).interner.points@,
                raw.points(7),
            ),
            loaded matches Err(e) ==> final(self).facts == old(self).facts && is_first_bad_row(
                raw,
                e,
            ),
    {
        let staged = match self.stage_all(raw) {
            Ok(staged) => staged,
            Err(e) => {
                return Err(e);
            },
        };
        let ghost table = self.interner.points@;
        extend3(
            &mut self.facts.borrow_region,
            &staged.borrow_region,
            Ghost(schema_of(0)),
            Ghost(raw.rows_of(0)),
            Ghost(table),
        );
        extend1(
            &mut self.facts.universal_region,
            &staged.universal_region,
            Ghost(schema_of(1)),
            Ghost(raw.rows_of(1)),
            Ghost(table),
        );
        extend2(
            &mut self.facts.cfg_edge,
            &staged.cfg_edge,
            Ghost(schema_of(2)),
            Ghost(raw.rows_of(2)),
            Ghost(table),
        );
        extend2(
            &mut self.facts.killed,
            &staged.killed,
            Ghost(schema_of(3)),
            Ghost(raw.rows_of(3)),
            Ghost(table),
        );
        extend3(
            &mut self.facts.outlives,
            &staged.outlives,
            Ghost(schema_of(4)),
            Ghost(raw.rows_of(4)),
            Ghost(table),
        );
        extend2(
            &mut self.facts.region_live_at,
            &staged.region_live_at,
            Ghost(schema_of(5)),
            Ghost(raw.rows_of(5)),
            Ghost(table),
        );
        extend2(
            &mut self.facts.invalidates,
            &staged.invalidates,
            Ghost(schema_of(6)),
            Ghost(raw.rows_of(6)),
            Ghost(table),
        );
        Ok(())
    }
}

} // verus!
