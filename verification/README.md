# life_expectancy

A verified library for querying life expectancy data: records are loaded from
a CSV file (region, code, year, life expectancy), the user picks regions and a
year range, and the rows are shown ordered by life expectancy, year, region, or
by the change of life expectancy over a number of years.

- `src/text.rs`: character order, white space, trimming, splitting on commas,
  decimal numbers.
- `src/record.rs`: rows, and the table that finds a region's record of a year.
- `src/region.rs`: the list of regions with their codes, the sorted listing, and
  the reading of the user's choice of regions.
- `src/query.rs`: filters (regions, years, years common to all chosen regions),
  the delta query, ordering by menu choice, truncation.
- `src/sort.rs`: a stable merge sort of rows by one column.
- `src/input.rs`: numbers within a range and yes/no answers.
- `app/main.rs`: the interactive program: file reading, prompts, printing, and
  the floating-point arithmetic on life expectancy.

Life expectancy is a floating-point number. The library only orders rows by it,
so rows carry it as an `i64` key whose order is the order of the numbers; the
program converts between the two.
