# webscraper

A scraper for the e-commerce test site of webscraper.io. It reads the
category menu, every product listing page by page, and every product page,
and stores each product variant (one per color and size) in a SQLite
database.

`src/` is the verified library:

- `text`: whitespace, trimming, token matching, integer parsing and
  printing, joining, path pieces.
- `html`: a document parsed by `select` read into a node table; queries
  (`Name`, `Class`, `Attr`, `Not`, `And`, `Descendant`) evaluated on it.
- `pattern`: regular expressions compiled and run by `regex`.
- `page`: a sub-category listing and how far it has been read.
- `product`: reading a product page, its variants and their keys.
- `catalog`: the categories and their sub-category listings.
- `command`: the commands of the program.

`app/` is the program: arguments, HTTP requests, the database and progress
bars.
