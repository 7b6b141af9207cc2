# proxy_bypass

Proxy bypass rules: the hosts that a browser profile connects to directly
instead of through its proxy or VPN. The library reads rules, writes them in
canonical form, decides which requests they cover, reports on them for an
editor, and validates the lists that are stored. Its behaviour is stated in
contracts and proved with Verus.

- `src/parse.rs`, `src/rule.rs`: what a text means as a rule, and what a rule
  covers.
- `src/address.rs`, `src/host.rs`, `src/domain.rs`, `src/glob.rs`,
  `src/pattern.rs`, `src/number.rs`, `src/text.rs`, `src/unicode.rs`: the parts
  a rule is made of.
- `src/matcher.rs`, `src/target.rs`, `src/report.rs`: compiled lists, requests
  to try, reports and validation.
- `src/laws.rs`, `src/address_laws.rs`, `src/spelling_laws.rs`,
  `src/reread.rs`, `src/store_laws.rs`, `src/ascii_laws.rs`: what holds of the
  library as a whole.
- `app/`: the command, the logging and the serializable types of the desktop
  application.

What regular expressions match comes from `regex-lite`, and punycode from
`url`. Lowercase forms, what is a letter or a number, and `String::push` come
from the standard library. These are called through small functions, and one
specification, whose contracts are taken as given.
