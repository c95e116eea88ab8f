# AquaTrace

AquaTrace analyzes GPX routes and finds the drinking water along them: map points
tagged `amenity=drinking_water`, and toilets with `drinking_water=yes`.

The rules are a library written in Verus; every function of it carries a contract, and
the contracts are proved, but for those of the trusted items named below.

- `src/` is the library.
  - Routes: `gpx_parser`, `gpx_time`, `license`, `elevation`, `geometry`, `analysis`, `types`.
  - Map data: `osm_tags`, `osm_dataset`, `osm_import`, `import_run`, `replacement`,
    `overpass`, `store`.
  - Archive of submissions: `archiving`, `gpx_archive`, `archive_name`, `filename`,
    `atomic_file`, `hash`.
  - Requests: `submission`, `api`, `street_view`, `config`.
  - Foundations: `binary64`, `order`, `text`, `time`.
- `tests/` runs the library on concrete values.
- `app/` is the backend around it: HTTP, SQLite, the map download, the files, and the
  floating-point arithmetic.

Numbers with a fraction are carried through the library by their IEEE 754 bit patterns
and compared there. Arithmetic on them is handed in by the caller as functions, and the
contracts state which of their results goes where.

What the library takes on trust stands in the functions marked
`#[verifier::external_body]` and in two `assume_specification` items, each with a comment
that says what is claimed: `gpx::read`, and what it calls on in turn,
`xml::EventReader` and `time::OffsetDateTime::parse`; `flate2::write::GzEncoder`,
`flate2::read::GzDecoder`, `sha2::Sha256::digest`, five functions of `chrono::DateTime`,
`String::push` and `char::is_alphanumeric`.
